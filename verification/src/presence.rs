//! What stands in the JSON form for a field that was not sent.
use crate::text::str_eq;
use vstd::prelude::*;

verus! {

/// What stands in the JSON form of an object for a field that was not sent.
#[derive(Clone, Copy, PartialEq, Eq, Structural)]
pub enum Presence {
    /// Nothing.
    AsSent,
    /// The value `null`.
    Null,
    /// An empty array.
    EmptyArray,
    /// The JSON form of a message without fields.
    EmptyMessage,
    /// A number, which also replaces zero.
    Int(i64),
    /// The quantity "1", which also replaces zero and the empty text.
    UnitQuantity,
}

/// The file mode 0644, in decimal.
pub const DEFAULT_FILE_MODE: i64 = 420;

/// What stands for a field of a message type. Scaled objects have their replica
/// count, pods and pod templates their lists and specs, and the kubelet finds
/// the modes and divisors that it insists on.
pub open spec fn presence_of(message: Seq<char>, field: Seq<char>) -> Presence {
    if field == "creationTimestamp"@ {
        if message == ".k8s.io.apimachinery.pkg.apis.meta.v1.ObjectMeta"@ {
            Presence::Null
        } else {
            Presence::AsSent
        }
    } else if field == "replicas"@ {
        if message == ".k8s.io.api.apps.v1.DeploymentSpec"@ || message
            == ".k8s.io.api.apps.v1.StatefulSetSpec"@ || message
            == ".k8s.io.api.apps.v1.ReplicaSetSpec"@ || message
            == ".k8s.io.api.core.v1.ReplicationControllerSpec"@ {
            Presence::Int(0)
        } else {
            Presence::AsSent
        }
    } else if field == "containers"@ {
        if message == ".k8s.io.api.core.v1.PodSpec"@ {
            Presence::EmptyArray
        } else {
            Presence::AsSent
        }
    } else if field == "drivers"@ {
        if message == ".k8s.io.api.storage.v1.CSINodeSpec"@ {
            Presence::EmptyArray
        } else {
            Presence::AsSent
        }
    } else if field == "spec"@ {
        if message == ".k8s.io.api.core.v1.Pod"@ || message == ".k8s.io.api.storage.v1.CSINode"@ {
            Presence::EmptyMessage
        } else {
            Presence::AsSent
        }
    } else if field == "template"@ {
        if message == ".k8s.io.api.batch.v1.JobSpec"@ || message
            == ".k8s.io.api.core.v1.PodTemplate"@ {
            Presence::EmptyMessage
        } else {
            Presence::AsSent
        }
    } else if field == "defaultMode"@ {
        if message == ".k8s.io.api.core.v1.DownwardAPIVolumeSource"@ {
            Presence::Int(DEFAULT_FILE_MODE)
        } else {
            Presence::AsSent
        }
    } else if field == "divisor"@ {
        if message == ".k8s.io.api.core.v1.ResourceFieldSelector"@ {
            Presence::UnitQuantity
        } else {
            Presence::AsSent
        }
    } else {
        Presence::AsSent
    }
}

/// What stands for a field of a message type.
pub fn presence(message: &str, field: &str) -> (r: Presence)
    ensures
        r == presence_of(message@, field@),
{
    if str_eq(field, "creationTimestamp") {
        if str_eq(message, ".k8s.io.apimachinery.pkg.apis.meta.v1.ObjectMeta") {
            Presence::Null
        } else {
            Presence::AsSent
        }
    } else if str_eq(field, "replicas") {
        if str_eq(message, ".k8s.io.api.apps.v1.DeploymentSpec") || str_eq(
            message,
            ".k8s.io.api.apps.v1.StatefulSetSpec",
        ) || str_eq(message, ".k8s.io.api.apps.v1.ReplicaSetSpec") || str_eq(
            message,
            ".k8s.io.api.core.v1.ReplicationControllerSpec",
        ) {
            Presence::Int(0)
        } else {
            Presence::AsSent
        }
    } else if str_eq(field, "containers") {
        if str_eq(message, ".k8s.io.api.core.v1.PodSpec") {
            Presence::EmptyArray
        } else {
            Presence::AsSent
        }
    } else if str_eq(field, "drivers") {
        if str_eq(message, ".k8s.io.api.storage.v1.CSINodeSpec") {
            Presence::EmptyArray
        } else {
            Presence::AsSent
        }
    } else if str_eq(field, "spec") {
        if str_eq(message, ".k8s.io.api.core.v1.Pod") || str_eq(
            message,
            ".k8s.io.api.storage.v1.CSINode",
        ) {
            Presence::EmptyMessage
        } else {
            Presence::AsSent
        }
    } else if str_eq(field, "template") {
        if str_eq(message, ".k8s.io.api.batch.v1.JobSpec") || str_eq(
            message,
            ".k8s.io.api.core.v1.PodTemplate",
        ) {
            Presence::EmptyMessage
        } else {
            Presence::AsSent
        }
    } else if str_eq(field, "defaultMode") {
        if str_eq(message, ".k8s.io.api.core.v1.DownwardAPIVolumeSource") {
            Presence::Int(DEFAULT_FILE_MODE)
        } else {
            Presence::AsSent
        }
    } else if str_eq(field, "divisor") {
        if str_eq(message, ".k8s.io.api.core.v1.ResourceFieldSelector") {
            Presence::UnitQuantity
        } else {
            Presence::AsSent
        }
    } else {
        Presence::AsSent
    }
}

/// Something stands for these fields where they were not sent, and for no
/// others.
pub proof fn law_fields_with_a_default(message: Seq<char>, field: Seq<char>)
    ensures
        presence_of(message, field) == Presence::Null <==> message
            == ".k8s.io.apimachinery.pkg.apis.meta.v1.ObjectMeta"@ && field == "creationTimestamp"@,
        presence_of(message, field) == Presence::EmptyArray <==> (message
            == ".k8s.io.api.core.v1.PodSpec"@ && field == "containers"@ || message
            == ".k8s.io.api.storage.v1.CSINodeSpec"@ && field == "drivers"@),
        presence_of(message, field) == Presence::EmptyMessage <==> (field == "spec"@ && (message
            == ".k8s.io.api.core.v1.Pod"@ || message == ".k8s.io.api.storage.v1.CSINode"@) || field
            == "template"@ && (message == ".k8s.io.api.batch.v1.JobSpec"@ || message
            == ".k8s.io.api.core.v1.PodTemplate"@)),
        presence_of(message, field) == Presence::UnitQuantity <==> message
            == ".k8s.io.api.core.v1.ResourceFieldSelector"@ && field == "divisor"@,
        presence_of(message, field) == Presence::Int(420) <==> message
            == ".k8s.io.api.core.v1.DownwardAPIVolumeSource"@ && field == "defaultMode"@,
        presence_of(message, field) == Presence::Int(0) <==> field == "replicas"@ && (message
            == ".k8s.io.api.apps.v1.DeploymentSpec"@ || message
            == ".k8s.io.api.apps.v1.StatefulSetSpec"@ || message
            == ".k8s.io.api.apps.v1.ReplicaSetSpec"@ || message
            == ".k8s.io.api.core.v1.ReplicationControllerSpec"@),
        presence_of(message, field) is Int ==> presence_of(message, field) == Presence::Int(0)
            || presence_of(message, field) == Presence::Int(420),
{
    reveal_strlit("creationTimestamp");
    reveal_strlit("replicas");
    reveal_strlit("containers");
    reveal_strlit("drivers");
    reveal_strlit("spec");
    reveal_strlit("template");
    reveal_strlit("defaultMode");
    reveal_strlit("divisor");
    assert("creationTimestamp"@.len() == 17 && "replicas"@.len() == 8 && "containers"@.len() == 10
        && "drivers"@.len() == 7 && "spec"@.len() == 4 && "template"@.len() == 8
        && "defaultMode"@.len() == 11 && "divisor"@.len() == 7);
    assert("replicas"@[0] != "template"@[0]);
    assert("drivers"@[1] != "divisor"@[1]);
}

} // verus!

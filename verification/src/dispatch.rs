//! Which message type the bytes of an object are, by its kind and API version.
use crate::json::{
    law_set_keeps_others, law_set_then_lookup, lemma_object_view, lookup, put_member, set_member,
    Json, JsonView,
};
use crate::object::{decode_members, decoded_members, Schema, SchemaView};
use crate::text::{join, str_eq};
use vstd::prelude::*;

verus! {

/// An API group with the version that it is served in.
#[derive(Clone, Copy, Debug, PartialEq, Eq, Structural)]
pub enum ApiGroup {
    Core,
    Apps,
    Batch,
    Rbac,
    Authorization,
    Authentication,
    Coordination,
    Storage,
    Networking,
    Discovery,
    Events,
    Policy,
    FlowControl,
    AdmissionRegistration,
    Certificates,
    Scheduling,
    Node,
    ApiExtensions,
    Meta,
}

/// The group of the objects of a kind. Events are in two groups and go by their
/// API version; every other kind is in one.
pub open spec fn group_of(kind: Seq<char>, api_version: Seq<char>) -> Option<ApiGroup> {
    if kind == "Event"@ {
        if api_version == "events.k8s.io/v1"@ {
            Some(ApiGroup::Events)
        } else {
            Some(ApiGroup::Core)
        }
    } else if kind == "Namespace"@
        || kind == "ConfigMap"@
        || kind == "Pod"@
        || kind == "PodTemplate"@
        || kind == "Node"@
        || kind == "Service"@
        || kind == "Secret"@
        || kind == "ReplicationController"@
        || kind == "PersistentVolume"@
        || kind == "ServiceAccount"@
        || kind == "PersistentVolumeClaim"@
        || kind == "Endpoints"@
        || kind == "ResourceQuota"@
        || kind == "LimitRange"@ {
        Some(ApiGroup::Core)
    } else if kind == "StatefulSet"@
        || kind == "Deployment"@
        || kind == "DaemonSet"@
        || kind == "ReplicaSet"@
        || kind == "ControllerRevision"@ {
        Some(ApiGroup::Apps)
    } else if kind == "CronJob"@ || kind == "Job"@ {
        Some(ApiGroup::Batch)
    } else if kind == "ClusterRole"@
        || kind == "ClusterRoleBinding"@
        || kind == "Role"@
        || kind == "RoleBinding"@ {
        Some(ApiGroup::Rbac)
    } else if kind == "SubjectAccessReview"@ || kind == "LocalSubjectAccessReview"@ {
        Some(ApiGroup::Authorization)
    } else if kind == "TokenReview"@ {
        Some(ApiGroup::Authentication)
    } else if kind == "Lease"@ {
        Some(ApiGroup::Coordination)
    } else if kind == "CSINode"@
        || kind == "CSIDriver"@
        || kind == "CSIStorageCapacity"@
        || kind == "VolumeAttachment"@
        || kind == "StorageClass"@
        || kind == "VolumeAttributesClass"@ {
        Some(ApiGroup::Storage)
    } else if kind == "IPAddress"@
        || kind == "ServiceCIDR"@
        || kind == "IngressClass"@
        || kind == "Ingress"@ {
        Some(ApiGroup::Networking)
    } else if kind == "EndpointSlice"@ {
        Some(ApiGroup::Discovery)
    } else if kind == "PodDisruptionBudget"@ {
        Some(ApiGroup::Policy)
    } else if kind == "FlowSchema"@ || kind == "PriorityLevelConfiguration"@ {
        Some(ApiGroup::FlowControl)
    } else if kind == "ValidatingWebhookConfiguration"@
        || kind == "MutatingWebhookConfiguration"@
        || kind == "MutatingAdmissionPolicy"@
        || kind == "MutatingAdmissionPolicyBinding"@
        || kind == "ValidatingAdmissionPolicy"@
        || kind == "ValidatingAdmissionPolicyBinding"@ {
        Some(ApiGroup::AdmissionRegistration)
    } else if kind == "CertificateSigningRequest"@ {
        Some(ApiGroup::Certificates)
    } else if kind == "PriorityClass"@ {
        Some(ApiGroup::Scheduling)
    } else if kind == "RuntimeClass"@ {
        Some(ApiGroup::Node)
    } else if kind == "CustomResourceDefinition"@ {
        Some(ApiGroup::ApiExtensions)
    } else if kind == "DeleteOptions"@ {
        Some(ApiGroup::Meta)
    } else {
        None
    }
}

/// Finds the group of the objects of a kind.
pub fn api_group(kind: &str, api_version: &str) -> (r: Option<ApiGroup>)
    ensures
        r == group_of(kind@, api_version@),
{
    if str_eq(kind, "Event") {
        if str_eq(api_version, "events.k8s.io/v1") {
            Some(ApiGroup::Events)
        } else {
            Some(ApiGroup::Core)
        }
    } else if str_eq(kind, "Namespace")
        || str_eq(kind, "ConfigMap")
        || str_eq(kind, "Pod")
        || str_eq(kind, "PodTemplate")
        || str_eq(kind, "Node")
        || str_eq(kind, "Service")
        || str_eq(kind, "Secret")
        || str_eq(kind, "ReplicationController")
        || str_eq(kind, "PersistentVolume")
        || str_eq(kind, "ServiceAccount")
        || str_eq(kind, "PersistentVolumeClaim")
        || str_eq(kind, "Endpoints")
        || str_eq(kind, "ResourceQuota")
        || str_eq(kind, "LimitRange") {
        Some(ApiGroup::Core)
    } else if str_eq(kind, "StatefulSet")
        || str_eq(kind, "Deployment")
        || str_eq(kind, "DaemonSet")
        || str_eq(kind, "ReplicaSet")
        || str_eq(kind, "ControllerRevision") {
        Some(ApiGroup::Apps)
    } else if str_eq(kind, "CronJob") || str_eq(kind, "Job") {
        Some(ApiGroup::Batch)
    } else if str_eq(kind, "ClusterRole")
        || str_eq(kind, "ClusterRoleBinding")
        || str_eq(kind, "Role")
        || str_eq(kind, "RoleBinding") {
        Some(ApiGroup::Rbac)
    } else if str_eq(kind, "SubjectAccessReview") || str_eq(kind, "LocalSubjectAccessReview") {
        Some(ApiGroup::Authorization)
    } else if str_eq(kind, "TokenReview") {
        Some(ApiGroup::Authentication)
    } else if str_eq(kind, "Lease") {
        Some(ApiGroup::Coordination)
    } else if str_eq(kind, "CSINode")
        || str_eq(kind, "CSIDriver")
        || str_eq(kind, "CSIStorageCapacity")
        || str_eq(kind, "VolumeAttachment")
        || str_eq(kind, "StorageClass")
        || str_eq(kind, "VolumeAttributesClass") {
        Some(ApiGroup::Storage)
    } else if str_eq(kind, "IPAddress")
        || str_eq(kind, "ServiceCIDR")
        || str_eq(kind, "IngressClass")
        || str_eq(kind, "Ingress") {
        Some(ApiGroup::Networking)
    } else if str_eq(kind, "EndpointSlice") {
        Some(ApiGroup::Discovery)
    } else if str_eq(kind, "PodDisruptionBudget") {
        Some(ApiGroup::Policy)
    } else if str_eq(kind, "FlowSchema") || str_eq(kind, "PriorityLevelConfiguration") {
        Some(ApiGroup::FlowControl)
    } else if str_eq(kind, "ValidatingWebhookConfiguration")
        || str_eq(kind, "MutatingWebhookConfiguration")
        || str_eq(kind, "MutatingAdmissionPolicy")
        || str_eq(kind, "MutatingAdmissionPolicyBinding")
        || str_eq(kind, "ValidatingAdmissionPolicy")
        || str_eq(kind, "ValidatingAdmissionPolicyBinding") {
        Some(ApiGroup::AdmissionRegistration)
    } else if str_eq(kind, "CertificateSigningRequest") {
        Some(ApiGroup::Certificates)
    } else if str_eq(kind, "PriorityClass") {
        Some(ApiGroup::Scheduling)
    } else if str_eq(kind, "RuntimeClass") {
        Some(ApiGroup::Node)
    } else if str_eq(kind, "CustomResourceDefinition") {
        Some(ApiGroup::ApiExtensions)
    } else if str_eq(kind, "DeleteOptions") {
        Some(ApiGroup::Meta)
    } else {
        None
    }
}

impl ApiGroup {
    /// The API version that objects of the group carry.
    pub open spec fn spec_api_version(self) -> Seq<char> {
        match self {
            ApiGroup::Core => "v1"@,
            ApiGroup::Apps => "apps/v1"@,
            ApiGroup::Batch => "batch/v1"@,
            ApiGroup::Rbac => "rbac.authorization.k8s.io/v1"@,
            ApiGroup::Authorization => "authorization.k8s.io/v1"@,
            ApiGroup::Authentication => "authentication.k8s.io/v1"@,
            ApiGroup::Coordination => "coordination.k8s.io/v1"@,
            ApiGroup::Storage => "storage.k8s.io/v1"@,
            ApiGroup::Networking => "networking.k8s.io/v1"@,
            ApiGroup::Discovery => "discovery.k8s.io/v1"@,
            ApiGroup::Events => "events.k8s.io/v1"@,
            ApiGroup::Policy => "policy/v1"@,
            ApiGroup::FlowControl => "flowcontrol.apiserver.k8s.io/v1"@,
            ApiGroup::AdmissionRegistration => "admissionregistration.k8s.io/v1"@,
            ApiGroup::Certificates => "certificates.k8s.io/v1"@,
            ApiGroup::Scheduling => "scheduling.k8s.io/v1"@,
            ApiGroup::Node => "node.k8s.io/v1"@,
            ApiGroup::ApiExtensions => "apiextensions.k8s.io/v1"@,
            ApiGroup::Meta => "v1"@,
        }
    }

    /// The API version that objects of the group carry.
    pub fn api_version(self) -> (r: &'static str)
        ensures
            r@ == self.spec_api_version(),
    {
        match self {
            ApiGroup::Core => "v1",
            ApiGroup::Apps => "apps/v1",
            ApiGroup::Batch => "batch/v1",
            ApiGroup::Rbac => "rbac.authorization.k8s.io/v1",
            ApiGroup::Authorization => "authorization.k8s.io/v1",
            ApiGroup::Authentication => "authentication.k8s.io/v1",
            ApiGroup::Coordination => "coordination.k8s.io/v1",
            ApiGroup::Storage => "storage.k8s.io/v1",
            ApiGroup::Networking => "networking.k8s.io/v1",
            ApiGroup::Discovery => "discovery.k8s.io/v1",
            ApiGroup::Events => "events.k8s.io/v1",
            ApiGroup::Policy => "policy/v1",
            ApiGroup::FlowControl => "flowcontrol.apiserver.k8s.io/v1",
            ApiGroup::AdmissionRegistration => "admissionregistration.k8s.io/v1",
            ApiGroup::Certificates => "certificates.k8s.io/v1",
            ApiGroup::Scheduling => "scheduling.k8s.io/v1",
            ApiGroup::Node => "node.k8s.io/v1",
            ApiGroup::ApiExtensions => "apiextensions.k8s.io/v1",
            ApiGroup::Meta => "v1",
        }
    }

    /// The prefix of the full names of the group's message types.
    pub open spec fn spec_package(self) -> Seq<char> {
        match self {
            ApiGroup::Core => ".k8s.io.api.core.v1"@,
            ApiGroup::Apps => ".k8s.io.api.apps.v1"@,
            ApiGroup::Batch => ".k8s.io.api.batch.v1"@,
            ApiGroup::Rbac => ".k8s.io.api.rbac.v1"@,
            ApiGroup::Authorization => ".k8s.io.api.authorization.v1"@,
            ApiGroup::Authentication => ".k8s.io.api.authentication.v1"@,
            ApiGroup::Coordination => ".k8s.io.api.coordination.v1"@,
            ApiGroup::Storage => ".k8s.io.api.storage.v1"@,
            ApiGroup::Networking => ".k8s.io.api.networking.v1"@,
            ApiGroup::Discovery => ".k8s.io.api.discovery.v1"@,
            ApiGroup::Events => ".k8s.io.api.events.v1"@,
            ApiGroup::Policy => ".k8s.io.api.policy.v1"@,
            ApiGroup::FlowControl => ".k8s.io.api.flowcontrol.v1"@,
            ApiGroup::AdmissionRegistration => ".k8s.io.api.admissionregistration.v1"@,
            ApiGroup::Certificates => ".k8s.io.api.certificates.v1"@,
            ApiGroup::Scheduling => ".k8s.io.api.scheduling.v1"@,
            ApiGroup::Node => ".k8s.io.api.node.v1"@,
            ApiGroup::ApiExtensions => ".k8s.io.apiextensions_apiserver.pkg.apis.apiextensions.v1"@,
            ApiGroup::Meta => ".k8s.io.apimachinery.pkg.apis.meta.v1"@,
        }
    }

    /// The prefix of the full names of the group's message types.
    pub fn package(self) -> (r: &'static str)
        ensures
            r@ == self.spec_package(),
    {
        match self {
            ApiGroup::Core => ".k8s.io.api.core.v1",
            ApiGroup::Apps => ".k8s.io.api.apps.v1",
            ApiGroup::Batch => ".k8s.io.api.batch.v1",
            ApiGroup::Rbac => ".k8s.io.api.rbac.v1",
            ApiGroup::Authorization => ".k8s.io.api.authorization.v1",
            ApiGroup::Authentication => ".k8s.io.api.authentication.v1",
            ApiGroup::Coordination => ".k8s.io.api.coordination.v1",
            ApiGroup::Storage => ".k8s.io.api.storage.v1",
            ApiGroup::Networking => ".k8s.io.api.networking.v1",
            ApiGroup::Discovery => ".k8s.io.api.discovery.v1",
            ApiGroup::Events => ".k8s.io.api.events.v1",
            ApiGroup::Policy => ".k8s.io.api.policy.v1",
            ApiGroup::FlowControl => ".k8s.io.api.flowcontrol.v1",
            ApiGroup::AdmissionRegistration => ".k8s.io.api.admissionregistration.v1",
            ApiGroup::Certificates => ".k8s.io.api.certificates.v1",
            ApiGroup::Scheduling => ".k8s.io.api.scheduling.v1",
            ApiGroup::Node => ".k8s.io.api.node.v1",
            ApiGroup::ApiExtensions => ".k8s.io.apiextensions_apiserver.pkg.apis.apiextensions.v1",
            ApiGroup::Meta => ".k8s.io.apimachinery.pkg.apis.meta.v1",
        }
    }
}

/// The JSON object for the bytes of an object: the JSON form of its message
/// type, with its API version and kind set. `None` where the kind is not known,
/// the schema lacks its message type, or the bytes are malformed or do not hold
/// to that type.
pub open spec fn decoded_object(
    s: SchemaView,
    kind: Seq<char>,
    api_version: Seq<char>,
    raw: Seq<u8>,
) -> Option<JsonView> {
    match group_of(kind, api_version) {
        None => None,
        Some(group) => match decoded_members(s, group.spec_package() + "."@ + kind, raw) {
            None => None,
            Some(list) => Some(
                JsonView::Object(
                    set_member(
                        set_member(
                            list,
                            "apiVersion"@,
                            JsonView::Str(group.spec_api_version()),
                        ),
                        "kind"@,
                        JsonView::Str(kind),
                    ),
                ),
            ),
        },
    }
}

/// Decodes the protobuf bytes of an object to JSON. The kind tells the message
/// type; the API version tells the two types of events apart.
pub fn decode_proto_by_kind_and_version(
    schema: &Schema,
    kind: &str,
    api_version: &str,
    raw: &[u8],
) -> (r: Option<Json>)
    ensures
        match decoded_object(schema@, kind@, api_version@, raw@) {
            None => r is None,
            Some(v) => r matches Some(j) && j@ == v,
        },
{
    let group = match api_group(kind, api_version) {
        None => {
            return None;
        },
        Some(group) => group,
    };
    let message = join(group.package(), ".", kind);
    let mut list = match decode_members(schema, message.as_str(), raw) {
        None => {
            return None;
        },
        Some(list) => list,
    };
    put_member(&mut list, "apiVersion".to_owned(), Json::Str(group.api_version().to_owned()));
    put_member(&mut list, "kind".to_owned(), Json::Str(kind.to_owned()));
    proof {
        lemma_object_view(list);
    }
    Some(Json::Object(list))
}

/// The API version tells apart the two types of events and nothing else: an
/// event of "events.k8s.io/v1" is one of that group, every other one is a core
/// event, and the group of another kind does not depend on it.
pub proof fn law_version_matters_for_events_alone(
    kind: Seq<char>,
    api_version: Seq<char>,
    other_version: Seq<char>,
)
    ensures
        kind != "Event"@ ==> group_of(kind, api_version) == group_of(kind, other_version),
        group_of("Event"@, "events.k8s.io/v1"@) == Some(ApiGroup::Events),
        api_version != "events.k8s.io/v1"@ ==> group_of("Event"@, api_version) == Some(
            ApiGroup::Core,
        ),
{
}

/// An object of a kind that is not known is never decoded.
pub proof fn law_unknown_kind_is_refused(
    s: SchemaView,
    kind: Seq<char>,
    api_version: Seq<char>,
    raw: Seq<u8>,
)
    requires
        group_of(kind, api_version) is None,
    ensures
        decoded_object(s, kind, api_version, raw) is None,
{
}

/// A decoded object says what it is: its kind, and the API version of its
/// group, whatever the bytes hold.
pub proof fn law_decoded_object_names_its_type(
    s: SchemaView,
    kind: Seq<char>,
    api_version: Seq<char>,
    raw: Seq<u8>,
)
    ensures
        decoded_object(s, kind, api_version, raw) matches Some(v) ==> {
            &&& v is Object
            &&& lookup(v->Object_0, "kind"@) == Some(JsonView::Str(kind))
            &&& group_of(kind, api_version) matches Some(group) && lookup(
                v->Object_0,
                "apiVersion"@,
            ) == Some(JsonView::Str(group.spec_api_version()))
        },
{
    if let Some(group) = group_of(kind, api_version) {
        if let Some(list) = decoded_members(s, group.spec_package() + "."@ + kind, raw) {
            let version = JsonView::Str(group.spec_api_version());
            let versioned = set_member(list, "apiVersion"@, version);
            reveal_strlit("apiVersion");
            reveal_strlit("kind");
            assert("apiVersion"@ != "kind"@) by {
                assert("apiVersion"@.len() != "kind"@.len());
            }
            law_set_then_lookup(list, "apiVersion"@, version);
            law_set_then_lookup(versioned, "kind"@, JsonView::Str(kind));
            law_set_keeps_others(versioned, "kind"@, JsonView::Str(kind), "apiVersion"@);
        }
    }
}

/// An object is decoded exactly where its kind is served and the bytes decode as
/// the message type of that kind in its group, whatever API version was named.
/// The object then has the members of that message; only the API version and the
/// kind are set on top.
pub proof fn law_object_is_decoded_as_its_type(
    s: SchemaView,
    kind: Seq<char>,
    api_version: Seq<char>,
    raw: Seq<u8>,
    name: Seq<char>,
)
    requires
        name != "apiVersion"@,
        name != "kind"@,
    ensures
        decoded_object(s, kind, api_version, raw) is Some <==> (group_of(
            kind,
            api_version,
        ) matches Some(group) && decoded_members(
            s,
            group.spec_package() + "."@ + kind,
            raw,
        ) is Some),
        decoded_object(s, kind, api_version, raw) matches Some(v) ==> v is Object && lookup(
            v->Object_0,
            name,
        ) == lookup(
            decoded_members(
                s,
                group_of(kind, api_version)->0.spec_package() + "."@ + kind,
                raw,
            )->0,
            name,
        ),
{
    if let Some(group) = group_of(kind, api_version) {
        if let Some(list) = decoded_members(s, group.spec_package() + "."@ + kind, raw) {
            let version = JsonView::Str(group.spec_api_version());
            let versioned = set_member(list, "apiVersion"@, version);
            law_set_keeps_others(list, "apiVersion"@, version, name);
            law_set_keeps_others(versioned, "kind"@, JsonView::Str(kind), name);
        }
    }
}

/// For every kind but events the API version that was named makes no difference
/// to the whole result. For events only "events.k8s.io/v1" does.
pub proof fn law_named_version_makes_no_difference(
    s: SchemaView,
    kind: Seq<char>,
    api_version: Seq<char>,
    other_version: Seq<char>,
    raw: Seq<u8>,
)
    requires
        kind != "Event"@ || (api_version == "events.k8s.io/v1"@ <==> other_version
            == "events.k8s.io/v1"@),
    ensures
        decoded_object(s, kind, api_version, raw) == decoded_object(s, kind, other_version, raw),
        group_of(kind, api_version) == group_of(kind, other_version),
{
}

/// The names of the kinds are all different.
#[verifier::rlimit(60)]
proof fn lemma_kind_names()
    ensures
        "Namespace"@.len() == 9,
        "ConfigMap"@.len() == 9,
        "Pod"@.len() == 3,
        "PodTemplate"@.len() == 11,
        "Node"@.len() == 4,
        "Service"@.len() == 7,
        "Secret"@.len() == 6,
        "ReplicationController"@.len() == 21,
        "PersistentVolume"@.len() == 16,
        "ServiceAccount"@.len() == 14,
        "PersistentVolumeClaim"@.len() == 21,
        "Endpoints"@.len() == 9,
        "ResourceQuota"@.len() == 13,
        "LimitRange"@.len() == 10,
        "StatefulSet"@.len() == 11,
        "Deployment"@.len() == 10,
        "DaemonSet"@.len() == 9,
        "ReplicaSet"@.len() == 10,
        "ControllerRevision"@.len() == 18,
        "CronJob"@.len() == 7,
        "Job"@.len() == 3,
        "ClusterRole"@.len() == 11,
        "ClusterRoleBinding"@.len() == 18,
        "Role"@.len() == 4,
        "RoleBinding"@.len() == 11,
        "SubjectAccessReview"@.len() == 19,
        "LocalSubjectAccessReview"@.len() == 24,
        "TokenReview"@.len() == 11,
        "Lease"@.len() == 5,
        "CSINode"@.len() == 7,
        "CSIDriver"@.len() == 9,
        "CSIStorageCapacity"@.len() == 18,
        "VolumeAttachment"@.len() == 16,
        "StorageClass"@.len() == 12,
        "VolumeAttributesClass"@.len() == 21,
        "IPAddress"@.len() == 9,
        "ServiceCIDR"@.len() == 11,
        "IngressClass"@.len() == 12,
        "Ingress"@.len() == 7,
        "EndpointSlice"@.len() == 13,
        "PodDisruptionBudget"@.len() == 19,
        "FlowSchema"@.len() == 10,
        "PriorityLevelConfiguration"@.len() == 26,
        "ValidatingWebhookConfiguration"@.len() == 30,
        "MutatingWebhookConfiguration"@.len() == 28,
        "MutatingAdmissionPolicy"@.len() == 23,
        "MutatingAdmissionPolicyBinding"@.len() == 30,
        "ValidatingAdmissionPolicy"@.len() == 25,
        "ValidatingAdmissionPolicyBinding"@.len() == 32,
        "CertificateSigningRequest"@.len() == 25,
        "PriorityClass"@.len() == 13,
        "RuntimeClass"@.len() == 12,
        "CustomResourceDefinition"@.len() == 24,
        "DeleteOptions"@.len() == 13,
        "Event"@.len() == 5,
        "Pod"@ != "Job"@,
        "Node"@ != "Role"@,
        "Lease"@ != "Event"@,
        "Service"@ != "CronJob"@,
        "Service"@ != "CSINode"@,
        "Service"@ != "Ingress"@,
        "CronJob"@ != "CSINode"@,
        "CronJob"@ != "Ingress"@,
        "CSINode"@ != "Ingress"@,
        "Namespace"@ != "ConfigMap"@,
        "Namespace"@ != "Endpoints"@,
        "Namespace"@ != "DaemonSet"@,
        "Namespace"@ != "CSIDriver"@,
        "Namespace"@ != "IPAddress"@,
        "ConfigMap"@ != "Endpoints"@,
        "ConfigMap"@ != "DaemonSet"@,
        "ConfigMap"@ != "CSIDriver"@,
        "ConfigMap"@ != "IPAddress"@,
        "Endpoints"@ != "DaemonSet"@,
        "Endpoints"@ != "CSIDriver"@,
        "Endpoints"@ != "IPAddress"@,
        "DaemonSet"@ != "CSIDriver"@,
        "DaemonSet"@ != "IPAddress"@,
        "CSIDriver"@ != "IPAddress"@,
        "LimitRange"@ != "Deployment"@,
        "LimitRange"@ != "ReplicaSet"@,
        "LimitRange"@ != "FlowSchema"@,
        "Deployment"@ != "ReplicaSet"@,
        "Deployment"@ != "FlowSchema"@,
        "ReplicaSet"@ != "FlowSchema"@,
        "PodTemplate"@ != "StatefulSet"@,
        "PodTemplate"@ != "ClusterRole"@,
        "PodTemplate"@ != "RoleBinding"@,
        "PodTemplate"@ != "TokenReview"@,
        "PodTemplate"@ != "ServiceCIDR"@,
        "StatefulSet"@ != "ClusterRole"@,
        "StatefulSet"@ != "RoleBinding"@,
        "StatefulSet"@ != "TokenReview"@,
        "StatefulSet"@ != "ServiceCIDR"@,
        "ClusterRole"@ != "RoleBinding"@,
        "ClusterRole"@ != "TokenReview"@,
        "ClusterRole"@ != "ServiceCIDR"@,
        "RoleBinding"@ != "TokenReview"@,
        "RoleBinding"@ != "ServiceCIDR"@,
        "TokenReview"@ != "ServiceCIDR"@,
        "StorageClass"@ != "IngressClass"@,
        "StorageClass"@ != "RuntimeClass"@,
        "IngressClass"@ != "RuntimeClass"@,
        "ResourceQuota"@ != "EndpointSlice"@,
        "ResourceQuota"@ != "PriorityClass"@,
        "ResourceQuota"@ != "DeleteOptions"@,
        "EndpointSlice"@ != "PriorityClass"@,
        "EndpointSlice"@ != "DeleteOptions"@,
        "PriorityClass"@ != "DeleteOptions"@,
        "PersistentVolume"@ != "VolumeAttachment"@,
        "ControllerRevision"@ != "ClusterRoleBinding"@,
        "ControllerRevision"@ != "CSIStorageCapacity"@,
        "ClusterRoleBinding"@ != "CSIStorageCapacity"@,
        "SubjectAccessReview"@ != "PodDisruptionBudget"@,
        "ReplicationController"@ != "PersistentVolumeClaim"@,
        "ReplicationController"@ != "VolumeAttributesClass"@,
        "PersistentVolumeClaim"@ != "VolumeAttributesClass"@,
        "LocalSubjectAccessReview"@ != "CustomResourceDefinition"@,
        "ValidatingAdmissionPolicy"@ != "CertificateSigningRequest"@,
        "ValidatingWebhookConfiguration"@ != "MutatingAdmissionPolicyBinding"@,
{
    reveal_strlit("Namespace");
    reveal_strlit("ConfigMap");
    reveal_strlit("Pod");
    reveal_strlit("PodTemplate");
    reveal_strlit("Node");
    reveal_strlit("Service");
    reveal_strlit("Secret");
    reveal_strlit("ReplicationController");
    reveal_strlit("PersistentVolume");
    reveal_strlit("ServiceAccount");
    reveal_strlit("PersistentVolumeClaim");
    reveal_strlit("Endpoints");
    reveal_strlit("ResourceQuota");
    reveal_strlit("LimitRange");
    reveal_strlit("StatefulSet");
    reveal_strlit("Deployment");
    reveal_strlit("DaemonSet");
    reveal_strlit("ReplicaSet");
    reveal_strlit("ControllerRevision");
    reveal_strlit("CronJob");
    reveal_strlit("Job");
    reveal_strlit("ClusterRole");
    reveal_strlit("ClusterRoleBinding");
    reveal_strlit("Role");
    reveal_strlit("RoleBinding");
    reveal_strlit("SubjectAccessReview");
    reveal_strlit("LocalSubjectAccessReview");
    reveal_strlit("TokenReview");
    reveal_strlit("Lease");
    reveal_strlit("CSINode");
    reveal_strlit("CSIDriver");
    reveal_strlit("CSIStorageCapacity");
    reveal_strlit("VolumeAttachment");
    reveal_strlit("StorageClass");
    reveal_strlit("VolumeAttributesClass");
    reveal_strlit("IPAddress");
    reveal_strlit("ServiceCIDR");
    reveal_strlit("IngressClass");
    reveal_strlit("Ingress");
    reveal_strlit("EndpointSlice");
    reveal_strlit("PodDisruptionBudget");
    reveal_strlit("FlowSchema");
    reveal_strlit("PriorityLevelConfiguration");
    reveal_strlit("ValidatingWebhookConfiguration");
    reveal_strlit("MutatingWebhookConfiguration");
    reveal_strlit("MutatingAdmissionPolicy");
    reveal_strlit("MutatingAdmissionPolicyBinding");
    reveal_strlit("ValidatingAdmissionPolicy");
    reveal_strlit("ValidatingAdmissionPolicyBinding");
    reveal_strlit("CertificateSigningRequest");
    reveal_strlit("PriorityClass");
    reveal_strlit("RuntimeClass");
    reveal_strlit("CustomResourceDefinition");
    reveal_strlit("DeleteOptions");
    reveal_strlit("Event");
    assert("Pod"@[0] != "Job"@[0]);
    assert("Node"@[0] != "Role"@[0]);
    assert("Lease"@[0] != "Event"@[0]);
    assert("Service"@[0] != "CronJob"@[0]);
    assert("Service"@[0] != "CSINode"@[0]);
    assert("Service"@[0] != "Ingress"@[0]);
    assert("CronJob"@[1] != "CSINode"@[1]);
    assert("CronJob"@[0] != "Ingress"@[0]);
    assert("CSINode"@[0] != "Ingress"@[0]);
    assert("Namespace"@[0] != "ConfigMap"@[0]);
    assert("Namespace"@[0] != "Endpoints"@[0]);
    assert("Namespace"@[0] != "DaemonSet"@[0]);
    assert("Namespace"@[0] != "CSIDriver"@[0]);
    assert("Namespace"@[0] != "IPAddress"@[0]);
    assert("ConfigMap"@[0] != "Endpoints"@[0]);
    assert("ConfigMap"@[0] != "DaemonSet"@[0]);
    assert("ConfigMap"@[1] != "CSIDriver"@[1]);
    assert("ConfigMap"@[0] != "IPAddress"@[0]);
    assert("Endpoints"@[0] != "DaemonSet"@[0]);
    assert("Endpoints"@[0] != "CSIDriver"@[0]);
    assert("Endpoints"@[0] != "IPAddress"@[0]);
    assert("DaemonSet"@[0] != "CSIDriver"@[0]);
    assert("DaemonSet"@[0] != "IPAddress"@[0]);
    assert("CSIDriver"@[0] != "IPAddress"@[0]);
    assert("LimitRange"@[0] != "Deployment"@[0]);
    assert("LimitRange"@[0] != "ReplicaSet"@[0]);
    assert("LimitRange"@[0] != "FlowSchema"@[0]);
    assert("Deployment"@[0] != "ReplicaSet"@[0]);
    assert("Deployment"@[0] != "FlowSchema"@[0]);
    assert("ReplicaSet"@[0] != "FlowSchema"@[0]);
    assert("PodTemplate"@[0] != "StatefulSet"@[0]);
    assert("PodTemplate"@[0] != "ClusterRole"@[0]);
    assert("PodTemplate"@[0] != "RoleBinding"@[0]);
    assert("PodTemplate"@[0] != "TokenReview"@[0]);
    assert("PodTemplate"@[0] != "ServiceCIDR"@[0]);
    assert("StatefulSet"@[0] != "ClusterRole"@[0]);
    assert("StatefulSet"@[0] != "RoleBinding"@[0]);
    assert("StatefulSet"@[0] != "TokenReview"@[0]);
    assert("StatefulSet"@[1] != "ServiceCIDR"@[1]);
    assert("ClusterRole"@[0] != "RoleBinding"@[0]);
    assert("ClusterRole"@[0] != "TokenReview"@[0]);
    assert("ClusterRole"@[0] != "ServiceCIDR"@[0]);
    assert("RoleBinding"@[0] != "TokenReview"@[0]);
    assert("RoleBinding"@[0] != "ServiceCIDR"@[0]);
    assert("TokenReview"@[0] != "ServiceCIDR"@[0]);
    assert("StorageClass"@[0] != "IngressClass"@[0]);
    assert("StorageClass"@[0] != "RuntimeClass"@[0]);
    assert("IngressClass"@[0] != "RuntimeClass"@[0]);
    assert("ResourceQuota"@[0] != "EndpointSlice"@[0]);
    assert("ResourceQuota"@[0] != "PriorityClass"@[0]);
    assert("ResourceQuota"@[0] != "DeleteOptions"@[0]);
    assert("EndpointSlice"@[0] != "PriorityClass"@[0]);
    assert("EndpointSlice"@[0] != "DeleteOptions"@[0]);
    assert("PriorityClass"@[0] != "DeleteOptions"@[0]);
    assert("PersistentVolume"@[0] != "VolumeAttachment"@[0]);
    assert("ControllerRevision"@[1] != "ClusterRoleBinding"@[1]);
    assert("ControllerRevision"@[1] != "CSIStorageCapacity"@[1]);
    assert("ClusterRoleBinding"@[1] != "CSIStorageCapacity"@[1]);
    assert("SubjectAccessReview"@[0] != "PodDisruptionBudget"@[0]);
    assert("ReplicationController"@[0] != "PersistentVolumeClaim"@[0]);
    assert("ReplicationController"@[0] != "VolumeAttributesClass"@[0]);
    assert("PersistentVolumeClaim"@[0] != "VolumeAttributesClass"@[0]);
    assert("LocalSubjectAccessReview"@[0] != "CustomResourceDefinition"@[0]);
    assert("ValidatingAdmissionPolicy"@[0] != "CertificateSigningRequest"@[0]);
    assert("ValidatingWebhookConfiguration"@[0] != "MutatingAdmissionPolicyBinding"@[0]);
}

/// Every kind that is served is found in its group, whatever API version was
/// named, and no other kind is served.
#[verifier::rlimit(60)]
pub proof fn law_served_kinds(kind: Seq<char>, api_version: Seq<char>)
    ensures
        kind == "Namespace"@
            || kind == "ConfigMap"@
            || kind == "Pod"@
            || kind == "PodTemplate"@
            || kind == "Node"@
            || kind == "Service"@
            || kind == "Secret"@
            || kind == "ReplicationController"@
            || kind == "PersistentVolume"@
            || kind == "ServiceAccount"@
            || kind == "PersistentVolumeClaim"@
            || kind == "Endpoints"@
            || kind == "ResourceQuota"@
            || kind == "LimitRange"@
            ==> group_of(kind, api_version) == Some(ApiGroup::Core),
        kind == "StatefulSet"@
            || kind == "Deployment"@
            || kind == "DaemonSet"@
            || kind == "ReplicaSet"@
            || kind == "ControllerRevision"@
            ==> group_of(kind, api_version) == Some(ApiGroup::Apps),
        kind == "CronJob"@
            || kind == "Job"@
            ==> group_of(kind, api_version) == Some(ApiGroup::Batch),
        kind == "ClusterRole"@
            || kind == "ClusterRoleBinding"@
            || kind == "Role"@
            || kind == "RoleBinding"@
            ==> group_of(kind, api_version) == Some(ApiGroup::Rbac),
        kind == "SubjectAccessReview"@
            || kind == "LocalSubjectAccessReview"@
            ==> group_of(kind, api_version) == Some(ApiGroup::Authorization),
        kind == "TokenReview"@
            ==> group_of(kind, api_version) == Some(ApiGroup::Authentication),
        kind == "Lease"@
            ==> group_of(kind, api_version) == Some(ApiGroup::Coordination),
        kind == "CSINode"@
            || kind == "CSIDriver"@
            || kind == "CSIStorageCapacity"@
            || kind == "VolumeAttachment"@
            || kind == "StorageClass"@
            || kind == "VolumeAttributesClass"@
            ==> group_of(kind, api_version) == Some(ApiGroup::Storage),
        kind == "IPAddress"@
            || kind == "ServiceCIDR"@
            || kind == "IngressClass"@
            || kind == "Ingress"@
            ==> group_of(kind, api_version) == Some(ApiGroup::Networking),
        kind == "EndpointSlice"@
            ==> group_of(kind, api_version) == Some(ApiGroup::Discovery),
        kind == "PodDisruptionBudget"@
            ==> group_of(kind, api_version) == Some(ApiGroup::Policy),
        kind == "FlowSchema"@
            || kind == "PriorityLevelConfiguration"@
            ==> group_of(kind, api_version) == Some(ApiGroup::FlowControl),
        kind == "ValidatingWebhookConfiguration"@
            || kind == "MutatingWebhookConfiguration"@
            || kind == "MutatingAdmissionPolicy"@
            || kind == "MutatingAdmissionPolicyBinding"@
            || kind == "ValidatingAdmissionPolicy"@
            || kind == "ValidatingAdmissionPolicyBinding"@
            ==> group_of(kind, api_version) == Some(ApiGroup::AdmissionRegistration),
        kind == "CertificateSigningRequest"@
            ==> group_of(kind, api_version) == Some(ApiGroup::Certificates),
        kind == "PriorityClass"@
            ==> group_of(kind, api_version) == Some(ApiGroup::Scheduling),
        kind == "RuntimeClass"@
            ==> group_of(kind, api_version) == Some(ApiGroup::Node),
        kind == "CustomResourceDefinition"@
            ==> group_of(kind, api_version) == Some(ApiGroup::ApiExtensions),
        kind == "DeleteOptions"@
            ==> group_of(kind, api_version) == Some(ApiGroup::Meta),
        group_of(kind, api_version) is Some <==> {
            ||| kind == "Namespace"@
            ||| kind == "ConfigMap"@
            ||| kind == "Pod"@
            ||| kind == "PodTemplate"@
            ||| kind == "Node"@
            ||| kind == "Service"@
            ||| kind == "Secret"@
            ||| kind == "ReplicationController"@
            ||| kind == "PersistentVolume"@
            ||| kind == "ServiceAccount"@
            ||| kind == "PersistentVolumeClaim"@
            ||| kind == "Endpoints"@
            ||| kind == "ResourceQuota"@
            ||| kind == "LimitRange"@
            ||| kind == "StatefulSet"@
            ||| kind == "Deployment"@
            ||| kind == "DaemonSet"@
            ||| kind == "ReplicaSet"@
            ||| kind == "ControllerRevision"@
            ||| kind == "CronJob"@
            ||| kind == "Job"@
            ||| kind == "ClusterRole"@
            ||| kind == "ClusterRoleBinding"@
            ||| kind == "Role"@
            ||| kind == "RoleBinding"@
            ||| kind == "SubjectAccessReview"@
            ||| kind == "LocalSubjectAccessReview"@
            ||| kind == "TokenReview"@
            ||| kind == "Lease"@
            ||| kind == "CSINode"@
            ||| kind == "CSIDriver"@
            ||| kind == "CSIStorageCapacity"@
            ||| kind == "VolumeAttachment"@
            ||| kind == "StorageClass"@
            ||| kind == "VolumeAttributesClass"@
            ||| kind == "IPAddress"@
            ||| kind == "ServiceCIDR"@
            ||| kind == "IngressClass"@
            ||| kind == "Ingress"@
            ||| kind == "EndpointSlice"@
            ||| kind == "PodDisruptionBudget"@
            ||| kind == "FlowSchema"@
            ||| kind == "PriorityLevelConfiguration"@
            ||| kind == "ValidatingWebhookConfiguration"@
            ||| kind == "MutatingWebhookConfiguration"@
            ||| kind == "MutatingAdmissionPolicy"@
            ||| kind == "MutatingAdmissionPolicyBinding"@
            ||| kind == "ValidatingAdmissionPolicy"@
            ||| kind == "ValidatingAdmissionPolicyBinding"@
            ||| kind == "CertificateSigningRequest"@
            ||| kind == "PriorityClass"@
            ||| kind == "RuntimeClass"@
            ||| kind == "CustomResourceDefinition"@
            ||| kind == "DeleteOptions"@
            ||| kind == "Event"@
        },
{
    lemma_kind_names();
}

/// The API version that each group is served in, and where its message types
/// are.
pub proof fn law_groups_have_their_names()
    ensures
        ApiGroup::Core.spec_api_version() == "v1"@,
        ApiGroup::Apps.spec_api_version() == "apps/v1"@,
        ApiGroup::Batch.spec_api_version() == "batch/v1"@,
        ApiGroup::Rbac.spec_api_version() == "rbac.authorization.k8s.io/v1"@,
        ApiGroup::Authorization.spec_api_version() == "authorization.k8s.io/v1"@,
        ApiGroup::Authentication.spec_api_version() == "authentication.k8s.io/v1"@,
        ApiGroup::Coordination.spec_api_version() == "coordination.k8s.io/v1"@,
        ApiGroup::Storage.spec_api_version() == "storage.k8s.io/v1"@,
        ApiGroup::Networking.spec_api_version() == "networking.k8s.io/v1"@,
        ApiGroup::Discovery.spec_api_version() == "discovery.k8s.io/v1"@,
        ApiGroup::Events.spec_api_version() == "events.k8s.io/v1"@,
        ApiGroup::Policy.spec_api_version() == "policy/v1"@,
        ApiGroup::FlowControl.spec_api_version() == "flowcontrol.apiserver.k8s.io/v1"@,
        ApiGroup::AdmissionRegistration.spec_api_version() == "admissionregistration.k8s.io/v1"@,
        ApiGroup::Certificates.spec_api_version() == "certificates.k8s.io/v1"@,
        ApiGroup::Scheduling.spec_api_version() == "scheduling.k8s.io/v1"@,
        ApiGroup::Node.spec_api_version() == "node.k8s.io/v1"@,
        ApiGroup::ApiExtensions.spec_api_version() == "apiextensions.k8s.io/v1"@,
        ApiGroup::Meta.spec_api_version() == "v1"@,
        ApiGroup::Core.spec_package() == ".k8s.io.api.core.v1"@,
        ApiGroup::Apps.spec_package() == ".k8s.io.api.apps.v1"@,
        ApiGroup::Batch.spec_package() == ".k8s.io.api.batch.v1"@,
        ApiGroup::Rbac.spec_package() == ".k8s.io.api.rbac.v1"@,
        ApiGroup::Authorization.spec_package() == ".k8s.io.api.authorization.v1"@,
        ApiGroup::Authentication.spec_package() == ".k8s.io.api.authentication.v1"@,
        ApiGroup::Coordination.spec_package() == ".k8s.io.api.coordination.v1"@,
        ApiGroup::Storage.spec_package() == ".k8s.io.api.storage.v1"@,
        ApiGroup::Networking.spec_package() == ".k8s.io.api.networking.v1"@,
        ApiGroup::Discovery.spec_package() == ".k8s.io.api.discovery.v1"@,
        ApiGroup::Events.spec_package() == ".k8s.io.api.events.v1"@,
        ApiGroup::Policy.spec_package() == ".k8s.io.api.policy.v1"@,
        ApiGroup::FlowControl.spec_package() == ".k8s.io.api.flowcontrol.v1"@,
        ApiGroup::AdmissionRegistration.spec_package() == ".k8s.io.api.admissionregistration.v1"@,
        ApiGroup::Certificates.spec_package() == ".k8s.io.api.certificates.v1"@,
        ApiGroup::Scheduling.spec_package() == ".k8s.io.api.scheduling.v1"@,
        ApiGroup::Node.spec_package() == ".k8s.io.api.node.v1"@,
        ApiGroup::ApiExtensions.spec_package()
            == ".k8s.io.apiextensions_apiserver.pkg.apis.apiextensions.v1"@,
        ApiGroup::Meta.spec_package() == ".k8s.io.apimachinery.pkg.apis.meta.v1"@,
{
}

} // verus!

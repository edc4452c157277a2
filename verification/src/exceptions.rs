//! Where the JSON form of a message departs from its protobuf fields.
use crate::schema::{FieldModel, FieldSchema};
use crate::text::{decapitalise, decapitalised, has_text, str_eq, texts};
use vstd::prelude::*;

verus! {

/// A field of a message type.
pub struct FieldPath {
    pub message: String,
    pub field: String,
}

/// A field whose JSON key is not its name.
pub struct Rename {
    pub message: String,
    pub field: String,
    pub key: String,
}

/// Where the JSON form of messages departs from their protobuf fields.
pub struct Exceptions {
    /// Message types whose JSON form is a single value.
    pub opaque: Vec<String>,
    pub renames: Vec<Rename>,
    /// Message fields whose members stand in the object around them.
    pub inline_embeds: Vec<FieldPath>,
    /// Fields that have no JSON form.
    pub omissions: Vec<FieldPath>,
}

/// The model of the exceptions.
pub struct ExceptionsView {
    pub opaque: Seq<Seq<char>>,
    pub renames: Seq<(Seq<char>, Seq<char>, Seq<char>)>,
    pub inline_embeds: Seq<(Seq<char>, Seq<char>)>,
    pub omissions: Seq<(Seq<char>, Seq<char>)>,
}

/// The models of a sequence of field paths.
pub open spec fn path_views(paths: Seq<FieldPath>) -> Seq<(Seq<char>, Seq<char>)> {
    Seq::new(paths.len(), |i: int| (paths[i].message@, paths[i].field@))
}

/// The models of a sequence of renames.
pub open spec fn rename_views(renames: Seq<Rename>) -> Seq<(Seq<char>, Seq<char>, Seq<char>)> {
    Seq::new(renames.len(), |i: int| (renames[i].message@, renames[i].field@, renames[i].key@))
}

impl View for Exceptions {
    type V = ExceptionsView;

    open spec fn view(&self) -> ExceptionsView {
        ExceptionsView {
            opaque: texts(self.opaque@),
            renames: rename_views(self.renames@),
            inline_embeds: path_views(self.inline_embeds@),
            omissions: path_views(self.omissions@),
        }
    }
}

/// The key that the last rename of a field gives it.
pub open spec fn renamed(
    renames: Seq<(Seq<char>, Seq<char>, Seq<char>)>,
    message: Seq<char>,
    field: Seq<char>,
) -> Option<Seq<char>>
    decreases renames.len(),
{
    if renames.len() == 0 {
        None
    } else {
        let (m, f, key) = renames.last();
        if m == message && f == field {
            Some(key)
        } else {
            renamed(renames.drop_last(), message, field)
        }
    }
}

impl ExceptionsView {
    pub open spec fn is_opaque(self, message: Seq<char>) -> bool {
        self.opaque.contains(message)
    }

    pub open spec fn is_excluded(self, message: Seq<char>, field: Seq<char>) -> bool {
        self.omissions.contains((message, field))
    }

    pub open spec fn is_inline_embed(self, message: Seq<char>, field: Seq<char>) -> bool {
        self.inline_embeds.contains((message, field))
    }

    /// The JSON key of a field: the one it was renamed to, else its JSON name
    /// (its name where it has none) with the first letter in lower case.
    pub open spec fn json_key(self, message: Seq<char>, field: FieldModel) -> Seq<char> {
        match renamed(self.renames, message, field.name) {
            Some(key) => key,
            None => decapitalised(
                if field.json_name.len() == 0 {
                    field.name
                } else {
                    field.json_name
                },
            ),
        }
    }
}

/// Whether a list of field paths holds one.
fn has_path(paths: &Vec<FieldPath>, message: &str, field: &str) -> (r: bool)
    ensures
        r == path_views(paths@).contains((message@, field@)),
{
    let mut i: usize = 0;
    while i < paths.len()
        invariant
            i <= paths@.len(),
            forall|j: int|
                0 <= j < i ==> (#[trigger] paths@[j].message@, paths@[j].field@) != (
                    message@,
                    field@,
                ),
        decreases paths@.len() - i,
    {
        if str_eq(paths[i].field.as_str(), field) && str_eq(paths[i].message.as_str(), message) {
            assert(path_views(paths@)[i as int] == (message@, field@));
            return true;
        }
        i += 1;
    }
    false
}

/// The exceptions of the Kubernetes API: instants, quantities, numbers that may
/// be texts and embedded JSON are single values, Go embeds stand inline, and two
/// keys of JSON schemas start with a dollar sign.
pub open spec fn kubernetes_exceptions() -> ExceptionsView {
    ExceptionsView {
        opaque: seq![
            ".k8s.io.apimachinery.pkg.apis.meta.v1.Time"@,
            ".k8s.io.apimachinery.pkg.apis.meta.v1.MicroTime"@,
            ".k8s.io.apimachinery.pkg.api.resource.Quantity"@,
            ".k8s.io.apimachinery.pkg.util.intstr.IntOrString"@,
            ".k8s.io.apimachinery.pkg.runtime.RawExtension"@,
            ".k8s.io.apimachinery.pkg.apis.meta.v1.FieldsV1"@,
            ".k8s.io.apiextensions_apiserver.pkg.apis.apiextensions.v1.JSON"@,
        ],
        renames: seq![
            (
                ".k8s.io.apiextensions_apiserver.pkg.apis.apiextensions.v1.JSONSchemaProps"@,
                "ref"@,
                "$ref"@,
            ),
            (
                ".k8s.io.apiextensions_apiserver.pkg.apis.apiextensions.v1.JSONSchemaProps"@,
                "schema"@,
                "$schema"@,
            ),
        ],
        inline_embeds: seq![
            (".k8s.io.api.core.v1.Volume"@, "volumeSource"@),
            (".k8s.io.api.core.v1.PersistentVolumeSpec"@, "persistentVolumeSource"@),
            (".k8s.io.api.core.v1.EphemeralContainer"@, "ephemeralContainerCommon"@),
            (".k8s.io.api.core.v1.Probe"@, "handler"@),
            (".k8s.io.api.core.v1.ConfigMapEnvSource"@, "localObjectReference"@),
            (".k8s.io.api.core.v1.ConfigMapKeySelector"@, "localObjectReference"@),
            (".k8s.io.api.core.v1.ConfigMapProjection"@, "localObjectReference"@),
            (".k8s.io.api.core.v1.ConfigMapVolumeSource"@, "localObjectReference"@),
            (".k8s.io.api.core.v1.SecretEnvSource"@, "localObjectReference"@),
            (".k8s.io.api.core.v1.SecretKeySelector"@, "localObjectReference"@),
            (".k8s.io.api.core.v1.SecretProjection"@, "localObjectReference"@),
            (
                ".k8s.io.api.admissionregistration.v1.NamedRuleWithOperations"@,
                "ruleWithOperations"@,
            ),
            (".k8s.io.api.admissionregistration.v1.RuleWithOperations"@, "rule"@),
        ],
        omissions: Seq::empty(),
    }
}

fn field_path(message: &str, field: &str) -> (r: FieldPath)
    ensures
        r.message@ == message@,
        r.field@ == field@,
{
    FieldPath { message: message.to_owned(), field: field.to_owned() }
}

fn rename(message: &str, field: &str, key: &str) -> (r: Rename)
    ensures
        r.message@ == message@,
        r.field@ == field@,
        r.key@ == key@,
{
    Rename { message: message.to_owned(), field: field.to_owned(), key: key.to_owned() }
}

impl Exceptions {
    /// The exceptions of the Kubernetes API.
    pub fn kubernetes() -> (r: Exceptions)
        ensures
            r@ == kubernetes_exceptions(),
    {
        let opaque: Vec<String> = vec![
            ".k8s.io.apimachinery.pkg.apis.meta.v1.Time".to_owned(),
            ".k8s.io.apimachinery.pkg.apis.meta.v1.MicroTime".to_owned(),
            ".k8s.io.apimachinery.pkg.api.resource.Quantity".to_owned(),
            ".k8s.io.apimachinery.pkg.util.intstr.IntOrString".to_owned(),
            ".k8s.io.apimachinery.pkg.runtime.RawExtension".to_owned(),
            ".k8s.io.apimachinery.pkg.apis.meta.v1.FieldsV1".to_owned(),
            ".k8s.io.apiextensions_apiserver.pkg.apis.apiextensions.v1.JSON".to_owned(),
        ];
        let renames: Vec<Rename> = vec![
            rename(
                ".k8s.io.apiextensions_apiserver.pkg.apis.apiextensions.v1.JSONSchemaProps",
                "ref",
                "$ref",
            ),
            rename(
                ".k8s.io.apiextensions_apiserver.pkg.apis.apiextensions.v1.JSONSchemaProps",
                "schema",
                "$schema",
            ),
        ];
        let inline_embeds: Vec<FieldPath> = vec![
            field_path(".k8s.io.api.core.v1.Volume", "volumeSource"),
            field_path(".k8s.io.api.core.v1.PersistentVolumeSpec", "persistentVolumeSource"),
            field_path(".k8s.io.api.core.v1.EphemeralContainer", "ephemeralContainerCommon"),
            field_path(".k8s.io.api.core.v1.Probe", "handler"),
            field_path(".k8s.io.api.core.v1.ConfigMapEnvSource", "localObjectReference"),
            field_path(".k8s.io.api.core.v1.ConfigMapKeySelector", "localObjectReference"),
            field_path(".k8s.io.api.core.v1.ConfigMapProjection", "localObjectReference"),
            field_path(".k8s.io.api.core.v1.ConfigMapVolumeSource", "localObjectReference"),
            field_path(".k8s.io.api.core.v1.SecretEnvSource", "localObjectReference"),
            field_path(".k8s.io.api.core.v1.SecretKeySelector", "localObjectReference"),
            field_path(".k8s.io.api.core.v1.SecretProjection", "localObjectReference"),
            field_path(
                ".k8s.io.api.admissionregistration.v1.NamedRuleWithOperations",
                "ruleWithOperations",
            ),
            field_path(".k8s.io.api.admissionregistration.v1.RuleWithOperations", "rule"),
        ];
        let omissions: Vec<FieldPath> = Vec::new();
        proof {
            let expected = kubernetes_exceptions();
            assert(texts(opaque@) =~= expected.opaque);
            assert(rename_views(renames@) =~= expected.renames);
            assert(path_views(inline_embeds@) =~= expected.inline_embeds);
            assert(path_views(omissions@) =~= expected.omissions);
        }
        Exceptions { opaque, renames, inline_embeds, omissions }
    }

    /// Whether the JSON form of a message type is a single value.
    pub fn is_opaque(&self, message: &str) -> (r: bool)
        ensures
            r == self@.is_opaque(message@),
    {
        has_text(&self.opaque, message)
    }

    /// Whether a field has no JSON form.
    pub fn is_excluded(&self, message: &str, field: &str) -> (r: bool)
        ensures
            r == self@.is_excluded(message@, field@),
    {
        has_path(&self.omissions, message, field)
    }

    /// Whether the members of a message field stand in the object around it.
    pub fn is_inline_embed(&self, message: &str, field: &str) -> (r: bool)
        ensures
            r == self@.is_inline_embed(message@, field@),
    {
        has_path(&self.inline_embeds, message, field)
    }

    /// The JSON key of a field.
    pub fn json_key(&self, message: &str, field: &FieldSchema) -> (r: String)
        ensures
            r@ == self@.json_key(message@, field@),
    {
        let mut i: usize = self.renames.len();
        assert(rename_views(self.renames@.take(i as int)) =~= self@.renames);
        while i > 0
            invariant
                i <= self.renames@.len(),
                renamed(self@.renames, message@, field@.name) == renamed(
                    rename_views(self.renames@.take(i as int)),
                    message@,
                    field@.name,
                ),
            decreases i,
        {
            proof {
                let front = rename_views(self.renames@.take(i as int));
                assert(front.drop_last() =~= rename_views(self.renames@.take(i - 1)));
                assert(front.last() == rename_views(self.renames@)[i - 1]);
            }
            let rename = &self.renames[i - 1];
            if str_eq(rename.message.as_str(), message) && str_eq(
                rename.field.as_str(),
                field.name.as_str(),
            ) {
                return rename.key.clone();
            }
            i -= 1;
        }
        if field.json_name.as_str().is_empty() {
            decapitalise(field.name.as_str())
        } else {
            decapitalise(field.json_name.as_str())
        }
    }
}

/// No field is left out of the Kubernetes API, neither from the keys that are
/// expected nor from the JSON form.
pub proof fn law_kubernetes_leaves_nothing_out(message: Seq<char>, field: Seq<char>)
    ensures
        !kubernetes_exceptions().is_excluded(message, field),
{
}

/// In the Kubernetes API the members of these message fields, and of no others,
/// stand in the object around them.
pub proof fn law_kubernetes_inline_embeds(message: Seq<char>, field: Seq<char>)
    ensures
        kubernetes_exceptions().is_inline_embed(message, field) <==> {
            ||| message == ".k8s.io.api.core.v1.Volume"@ && field == "volumeSource"@
            ||| message == ".k8s.io.api.core.v1.PersistentVolumeSpec"@ && field
                == "persistentVolumeSource"@
            ||| message == ".k8s.io.api.core.v1.EphemeralContainer"@ && field
                == "ephemeralContainerCommon"@
            ||| message == ".k8s.io.api.core.v1.Probe"@ && field == "handler"@
            ||| field == "localObjectReference"@ && (message
                == ".k8s.io.api.core.v1.ConfigMapEnvSource"@ || message
                == ".k8s.io.api.core.v1.ConfigMapKeySelector"@ || message
                == ".k8s.io.api.core.v1.ConfigMapProjection"@ || message
                == ".k8s.io.api.core.v1.ConfigMapVolumeSource"@ || message
                == ".k8s.io.api.core.v1.SecretEnvSource"@ || message
                == ".k8s.io.api.core.v1.SecretKeySelector"@ || message
                == ".k8s.io.api.core.v1.SecretProjection"@)
            ||| message == ".k8s.io.api.admissionregistration.v1.NamedRuleWithOperations"@ && field
                == "ruleWithOperations"@
            ||| message == ".k8s.io.api.admissionregistration.v1.RuleWithOperations"@ && field
                == "rule"@
        },
{
    let embeds = kubernetes_exceptions().inline_embeds;
    let n = 13int;
    assert(embeds.len() == n);
    assert(embeds[0] == (".k8s.io.api.core.v1.Volume"@, "volumeSource"@));
    assert(embeds[1] == (
        ".k8s.io.api.core.v1.PersistentVolumeSpec"@,
        "persistentVolumeSource"@,
    ));
    assert(embeds[2] == (
        ".k8s.io.api.core.v1.EphemeralContainer"@,
        "ephemeralContainerCommon"@,
    ));
    assert(embeds[3] == (".k8s.io.api.core.v1.Probe"@, "handler"@));
    assert(embeds[4] == (".k8s.io.api.core.v1.ConfigMapEnvSource"@, "localObjectReference"@));
    assert(embeds[5] == (".k8s.io.api.core.v1.ConfigMapKeySelector"@, "localObjectReference"@));
    assert(embeds[6] == (".k8s.io.api.core.v1.ConfigMapProjection"@, "localObjectReference"@));
    assert(embeds[7] == (".k8s.io.api.core.v1.ConfigMapVolumeSource"@, "localObjectReference"@));
    assert(embeds[8] == (".k8s.io.api.core.v1.SecretEnvSource"@, "localObjectReference"@));
    assert(embeds[9] == (".k8s.io.api.core.v1.SecretKeySelector"@, "localObjectReference"@));
    assert(embeds[10] == (".k8s.io.api.core.v1.SecretProjection"@, "localObjectReference"@));
    assert(embeds[11] == (
        ".k8s.io.api.admissionregistration.v1.NamedRuleWithOperations"@,
        "ruleWithOperations"@,
    ));
    assert(embeds[12] == (
        ".k8s.io.api.admissionregistration.v1.RuleWithOperations"@,
        "rule"@,
    ));
}

/// In the Kubernetes API these message types, and no others, are single values.
pub proof fn law_kubernetes_single_values(message: Seq<char>)
    ensures
        kubernetes_exceptions().is_opaque(message) <==> {
            ||| message == ".k8s.io.apimachinery.pkg.apis.meta.v1.Time"@
            ||| message == ".k8s.io.apimachinery.pkg.apis.meta.v1.MicroTime"@
            ||| message == ".k8s.io.apimachinery.pkg.api.resource.Quantity"@
            ||| message == ".k8s.io.apimachinery.pkg.util.intstr.IntOrString"@
            ||| message == ".k8s.io.apimachinery.pkg.runtime.RawExtension"@
            ||| message == ".k8s.io.apimachinery.pkg.apis.meta.v1.FieldsV1"@
            ||| message == ".k8s.io.apiextensions_apiserver.pkg.apis.apiextensions.v1.JSON"@
        },
{
    let opaque = kubernetes_exceptions().opaque;
    assert(opaque.len() == 7);
    assert(opaque[0] == ".k8s.io.apimachinery.pkg.apis.meta.v1.Time"@);
    assert(opaque[1] == ".k8s.io.apimachinery.pkg.apis.meta.v1.MicroTime"@);
    assert(opaque[2] == ".k8s.io.apimachinery.pkg.api.resource.Quantity"@);
    assert(opaque[3] == ".k8s.io.apimachinery.pkg.util.intstr.IntOrString"@);
    assert(opaque[4] == ".k8s.io.apimachinery.pkg.runtime.RawExtension"@);
    assert(opaque[5] == ".k8s.io.apimachinery.pkg.apis.meta.v1.FieldsV1"@);
    assert(opaque[6] == ".k8s.io.apiextensions_apiserver.pkg.apis.apiextensions.v1.JSON"@);
}

/// In the Kubernetes API every field has its JSON name as its key, or its name
/// where it has none, with a leading capital of A to Z in lower case and nothing
/// else changed. The two exceptions are keys of JSON schemas.
pub proof fn law_kubernetes_keys(message: Seq<char>, field: FieldModel)
    ensures
        ({
            let props =
                ".k8s.io.apiextensions_apiserver.pkg.apis.apiextensions.v1.JSONSchemaProps"@;
            let key = kubernetes_exceptions().json_key(message, field);
            let name = if field.json_name.len() == 0 {
                field.name
            } else {
                field.json_name
            };
            if message == props && field.name == "ref"@ {
                key == "$ref"@
            } else if message == props && field.name == "schema"@ {
                key == "$schema"@
            } else {
                &&& key.len() == name.len()
                &&& forall|i: int| 1 <= i < key.len() ==> #[trigger] key[i] == name[i]
                &&& key.len() > 0 ==> if 'A' <= name[0] <= 'Z' {
                    'a' <= key[0] <= 'z' && key[0] as int - 'a' as int == name[0] as int
                        - 'A' as int
                } else {
                    key[0] == name[0]
                }
            }
        }),
{
    reveal_with_fuel(renamed, 3);
    reveal_strlit("ref");
    reveal_strlit("schema");
    let props = ".k8s.io.apiextensions_apiserver.pkg.apis.apiextensions.v1.JSONSchemaProps"@;
    let renames = kubernetes_exceptions().renames;
    assert(renames.len() == 2);
    assert(renames.last() == (props, "schema"@, "$schema"@));
    assert(renames.drop_last().last() == (props, "ref"@, "$ref"@));
    assert(renames.drop_last().drop_last().len() == 0);
    assert("ref"@.len() != "schema"@.len());
}

/// Exceptions are those that are listed, and no others.
pub proof fn law_exceptions_are_those_listed(
    exceptions: ExceptionsView,
    message: Seq<char>,
    field: Seq<char>,
)
    ensures
        exceptions.is_opaque(message) <==> exists|i: int|
            0 <= i < exceptions.opaque.len() && #[trigger] exceptions.opaque[i] == message,
        exceptions.is_excluded(message, field) <==> exists|i: int|
            0 <= i < exceptions.omissions.len() && #[trigger] exceptions.omissions[i] == (
                message,
                field,
            ),
        exceptions.is_inline_embed(message, field) <==> exists|i: int|
            0 <= i < exceptions.inline_embeds.len() && #[trigger] exceptions.inline_embeds[i] == (
                message,
                field,
            ),
{
}

/// The last rename of a field gives it its key; a field without one has its JSON
/// name, or its name, with the first letter in lower case.
pub proof fn law_last_rename_counts(
    exceptions: ExceptionsView,
    message: Seq<char>,
    field: FieldModel,
    i: int,
)
    requires
        -1 <= i < exceptions.renames.len(),
        i >= 0 ==> exceptions.renames[i].0 == message && exceptions.renames[i].1 == field.name,
        forall|k: int|
            i < k < exceptions.renames.len() ==> (#[trigger] exceptions.renames[k]).0 != message
                || exceptions.renames[k].1 != field.name,
    ensures
        exceptions.json_key(message, field) == if i >= 0 {
            exceptions.renames[i].2
        } else if field.json_name.len() > 0 {
            decapitalised(field.json_name)
        } else {
            decapitalised(field.name)
        },
{
    lemma_last_rename(exceptions.renames, message, field.name, i);
}

proof fn lemma_last_rename(
    renames: Seq<(Seq<char>, Seq<char>, Seq<char>)>,
    message: Seq<char>,
    field: Seq<char>,
    i: int,
)
    requires
        -1 <= i < renames.len(),
        i >= 0 ==> renames[i].0 == message && renames[i].1 == field,
        forall|k: int|
            i < k < renames.len() ==> (#[trigger] renames[k]).0 != message || renames[k].1 != field,
    ensures
        renamed(renames, message, field) == if i >= 0 {
            Some(renames[i].2)
        } else {
            None
        },
    decreases renames.len(),
{
    if renames.len() > 0 && i < renames.len() - 1 {
        let front = renames.drop_last();
        assert(renames[renames.len() - 1].0 != message || renames[renames.len() - 1].1 != field);
        assert forall|k: int| i < k < front.len() implies (#[trigger] front[k]).0 != message
            || front[k].1 != field by {
            assert(front[k] == renames[k]);
        }
        lemma_last_rename(front, message, field, i);
    }
}

} // verus!

//! Messages of the schema: whether a body holds to its type, and its JSON form.
use crate::descriptor::{is_flat, json_keys, law_keys_of_a_flat_message, path_below};
use crate::exceptions::{
    kubernetes_exceptions, law_kubernetes_leaves_nothing_out, Exceptions, ExceptionsView,
};
use crate::fields::{
    all_bytes, contents, find_all_bytes, find_last_bytes, find_last_varint, last_bytes,
    law_absent_field_gives_nothing, law_numbered_fields, law_numbers_are_independent, numbered,
    last_varint, le32, le64, merge_payloads, merged_fields, prost_varint, read_fields, split_fields,
    take_fixed32, take_fixed64, views, FieldView, ValueView, WireField, WireValue,
};
use crate::json::{
    json_views, law_set_keeps_others, law_set_members_lookup, law_set_then_lookup,
    lemma_array_view, lemma_object_view, lemma_set_one, lookup,
    member_index, member_views, put_member, set_member, set_members, Json, JsonView,
};
use crate::presence::{presence, presence_of, Presence, DEFAULT_FILE_MODE};
use crate::schema::{
    field_models, FieldModel, FieldSchema, IndexView, MessageIndex, MessageSchema,
    KIND_BOOL, KIND_BYTES, KIND_DOUBLE, KIND_ENUM, KIND_FIXED32, KIND_FIXED64, KIND_FLOAT,
    KIND_INT32, KIND_INT64, KIND_MESSAGE, KIND_SFIXED32, KIND_SFIXED64, KIND_SINT32, KIND_SINT64,
    KIND_STRING, KIND_UINT32, KIND_UINT64, LABEL_REPEATED,
};
use crate::text::{
    base64_encode, base64_text, plain_text, read_plain_text, str_eq, utf8_text,
};
use crate::time::{rfc3339, rfc3339_micro, secs_nanos_to_rfc3339_micro, secs_to_rfc3339};
use crate::wire::{lemma_read_varint_bounds, read_varint, RECURSION_LIMIT};
use vstd::prelude::*;
use vstd::utf8::valid_utf8;

verus! {

/// The schema of API objects: message types, and where their JSON form departs
/// from their fields.
pub struct Schema {
    pub index: MessageIndex,
    pub exceptions: Exceptions,
}

/// The model of a schema.
pub struct SchemaView {
    pub index: IndexView,
    pub exceptions: ExceptionsView,
}

impl View for Schema {
    type V = SchemaView;

    open spec fn view(&self) -> SchemaView {
        SchemaView { index: self.index@, exceptions: self.exceptions@ }
    }
}

/// Whether a field is a map.
pub open spec fn is_map(index: IndexView, field: FieldModel) -> bool {
    field.kind == KIND_MESSAGE && index.contains_key(field.message_type)
        && index[field.message_type].map_entry
}

/// The numbers of the map fields among the first `n` fields.
pub open spec fn map_numbers(index: IndexView, fields: Seq<FieldModel>, n: nat) -> Seq<u32>
    decreases n,
{
    if n == 0 {
        Seq::empty()
    } else {
        let before = map_numbers(index, fields, (n - 1) as nat);
        if is_map(index, fields[n - 1]) {
            before.push(fields[n - 1].number)
        } else {
            before
        }
    }
}

/// The fields of a message type; none where the index lacks it.
pub open spec fn fields_of(index: IndexView, message: Seq<char>) -> Seq<FieldModel> {
    if index.contains_key(message) {
        index[message].fields
    } else {
        Seq::empty()
    }
}

/// The numbers of the map fields of a message type, whose wire type is not
/// looked at.
pub open spec fn maps_of(index: IndexView, message: Seq<char>) -> Seq<u32> {
    let fields = fields_of(index, message);
    map_numbers(index, fields, fields.len())
}

/// The first field with a number.
pub open spec fn field_numbered(fields: Seq<FieldModel>, number: u32) -> Option<FieldModel>
    decreases fields.len(),
{
    if fields.len() == 0 {
        None
    } else if fields[0].number == number {
        Some(fields[0])
    } else {
        field_numbered(fields.skip(1), number)
    }
}

/// Whether a scalar is sent as a varint.
pub open spec fn is_varint_kind(kind: u32) -> bool {
    kind == KIND_BOOL || kind == KIND_ENUM || kind == KIND_INT32 || kind == KIND_INT64 || kind
        == KIND_UINT32 || kind == KIND_UINT64 || kind == KIND_SINT32 || kind == KIND_SINT64
}

/// Whether a scalar is sent as eight bytes.
pub open spec fn is_fixed64_kind(kind: u32) -> bool {
    kind == KIND_DOUBLE || kind == KIND_FIXED64 || kind == KIND_SFIXED64
}

/// Whether a scalar is sent as four bytes.
pub open spec fn is_fixed32_kind(kind: u32) -> bool {
    kind == KIND_FLOAT || kind == KIND_FIXED32 || kind == KIND_SFIXED32
}

/// Whether a scalar is a number or a truth value.
pub open spec fn is_number_kind(kind: u32) -> bool {
    is_varint_kind(kind) || is_fixed64_kind(kind) || is_fixed32_kind(kind)
}

/// The bits of a number of a kind that a value carries on its own; `None` where
/// it is sent otherwise.
pub open spec fn single_number(kind: u32, value: ValueView) -> Option<u64> {
    match value {
        ValueView::Varint(v) => if is_varint_kind(kind) {
            Some(v)
        } else {
            None
        },
        ValueView::Fixed64(v) => if is_fixed64_kind(kind) {
            Some(v)
        } else {
            None
        },
        ValueView::Fixed32(v) => if is_fixed32_kind(kind) {
            Some(v as u64)
        } else {
            None
        },
        _ => None,
    }
}

/// The bits of the number of a kind at the front of `b`, and how many bytes it
/// takes.
pub open spec fn front_number(kind: u32, b: Seq<u8>) -> Option<(u64, nat)> {
    if is_varint_kind(kind) {
        match read_varint(b, 0) {
            None => None,
            Some((v, n)) => Some((v as u64, n)),
        }
    } else if is_fixed64_kind(kind) && b.len() >= 8 {
        Some((le64(b) as u64, 8))
    } else if is_fixed32_kind(kind) && b.len() >= 4 {
        Some((le32(b) as u64, 4))
    } else {
        None
    }
}

/// The bits of the numbers of a kind that fill a payload.
pub open spec fn packed_numbers(kind: u32, b: Seq<u8>) -> Option<Seq<u64>>
    decreases b.len(),
{
    if b.len() == 0 {
        Some(Seq::empty())
    } else {
        match front_number(kind, b) {
            None => None,
            Some((v, n)) => if n == 0 || n > b.len() {
                None
            } else {
                match packed_numbers(kind, b.skip(n as int)) {
                    None => None,
                    Some(vs) => Some(seq![v] + vs),
                }
            },
        }
    }
}

/// Whether every field of a message carries what its type declares, and so on
/// in the messages it holds. Fields that the type does not declare are stepped
/// over, except where the recursion limit is used up.
pub open spec fn typed(
    index: IndexView,
    message: Seq<char>,
    fields: Seq<FieldView>,
    depth: nat,
) -> bool
    decreases depth, fields.len() + 1,
{
    fields.len() > 0 ==> typed(index, message, fields.drop_last(), depth) && typed_field(
        index,
        message,
        fields.last(),
        depth,
    )
}

/// Whether one field carries what the message type declares.
pub open spec fn typed_field(
    index: IndexView,
    message: Seq<char>,
    field: FieldView,
    depth: nat,
) -> bool
    decreases depth, 0nat,
{
    match field_numbered(fields_of(index, message), field.number) {
        None => depth > 0,
        Some(declared) => if declared.kind == KIND_STRING {
            match field.value {
                ValueView::Bytes(p) => valid_utf8(p),
                _ => false,
            }
        } else if declared.kind == KIND_BYTES {
            field.value is Bytes
        } else if is_number_kind(declared.kind) {
            match field.value {
                ValueView::Bytes(p) => declared.label == LABEL_REPEATED && packed_numbers(
                    declared.kind,
                    p,
                ) is Some,
                _ => single_number(declared.kind, field.value) is Some,
            }
        } else if declared.kind == KIND_MESSAGE {
            match field.value {
                ValueView::Bytes(p) => if depth == 0 || !index.contains_key(
                    declared.message_type,
                ) {
                    false
                } else {
                    let inner = declared.message_type;
                    match read_fields(p, maps_of(index, inner), (depth - 1) as nat) {
                        None => false,
                        Some(fs) => typed(index, inner, fs, (depth - 1) as nat),
                    }
                },
                _ => false,
            }
        } else {
            depth > 0
        },
    }
}

/// Whether a scalar is sent as a varint.
fn has_varint(kind: u32) -> (r: bool)
    ensures
        r == is_varint_kind(kind),
{
    kind == KIND_BOOL || kind == KIND_ENUM || kind == KIND_INT32 || kind == KIND_INT64 || kind
        == KIND_UINT32 || kind == KIND_UINT64 || kind == KIND_SINT32 || kind == KIND_SINT64
}

/// Whether a scalar is sent as eight bytes.
fn has_fixed64(kind: u32) -> (r: bool)
    ensures
        r == is_fixed64_kind(kind),
{
    kind == KIND_DOUBLE || kind == KIND_FIXED64 || kind == KIND_SFIXED64
}

/// Whether a scalar is sent as four bytes.
fn has_fixed32(kind: u32) -> (r: bool)
    ensures
        r == is_fixed32_kind(kind),
{
    kind == KIND_FLOAT || kind == KIND_FIXED32 || kind == KIND_SFIXED32
}

/// Whether a scalar is a number or a truth value.
fn has_number(kind: u32) -> (r: bool)
    ensures
        r == is_number_kind(kind),
{
    has_varint(kind) || has_fixed64(kind) || has_fixed32(kind)
}

/// The bits of a number of a kind that a value carries on its own.
fn read_single(kind: u32, value: WireValue) -> (r: Option<u64>)
    ensures
        r == single_number(kind, (WireField { number: 0, value })@.value),
{
    match value {
        WireValue::Varint(v) => if has_varint(kind) {
            Some(v)
        } else {
            None
        },
        WireValue::Fixed64(v) => if has_fixed64(kind) {
            Some(v)
        } else {
            None
        },
        WireValue::Fixed32(v) => if has_fixed32(kind) {
            Some(v as u64)
        } else {
            None
        },
        _ => None,
    }
}

/// Takes the number of a kind at the front of a slice.
fn take_number(kind: u32, buf: &[u8]) -> (r: Option<(u64, &[u8])>)
    ensures
        match front_number(kind, buf@) {
            None => r is None,
            Some((v, n)) => r matches Some((value, rest)) && value == v && 1 <= n <= buf@.len()
                && rest@ == buf@.skip(n as int),
        },
{
    proof {
        lemma_read_varint_bounds(buf@, 0);
    }
    if has_varint(kind) {
        prost_varint(buf)
    } else if has_fixed64(kind) {
        take_fixed64(buf)
    } else if has_fixed32(kind) {
        match take_fixed32(buf) {
            None => None,
            Some((value, rest)) => Some((value as u64, rest)),
        }
    } else {
        None
    }
}

/// The numbers of the map fields of a message type.
fn find_maps(index: &MessageIndex, message: &MessageSchema) -> (r: Vec<u32>)
    ensures
        r@ == map_numbers(index@, message@.fields, message@.fields.len()),
{
    let mut out: Vec<u32> = Vec::new();
    let mut i: usize = 0;
    assert(out@ =~= Seq::<u32>::empty());
    while i < message.fields.len()
        invariant
            i <= message.fields@.len(),
            out@ == map_numbers(index@, message@.fields, i as nat),
        decreases message.fields@.len() - i,
    {
        let field = &message.fields[i];
        if is_map_field(index, field) {
            out.push(field.number);
        }
        i += 1;
    }
    out
}

/// Whether a field is a map.
fn is_map_field(index: &MessageIndex, field: &FieldSchema) -> (r: bool)
    ensures
        r == is_map(index@, field@),
{
    if field.kind != KIND_MESSAGE {
        return false;
    }
    match index.get(field.message_type.as_str()) {
        None => false,
        Some(m) => m.map_entry,
    }
}

/// Finds the first field with a number.
fn find_field<'a>(fields: &'a Vec<FieldSchema>, number: u32) -> (r: Option<&'a FieldSchema>)
    ensures
        match field_numbered(field_models(fields@), number) {
            None => r is None,
            Some(f) => r matches Some(field) && field@ == f,
        },
{
    let mut i: usize = 0;
    assert(field_models(fields@).skip(0) =~= field_models(fields@));
    while i < fields.len()
        invariant
            i <= fields@.len(),
            field_numbered(field_models(fields@), number) == field_numbered(
                field_models(fields@).skip(i as int),
                number,
            ),
        decreases fields@.len() - i,
    {
        proof {
            let rest = field_models(fields@).skip(i as int);
            assert(rest[0] == fields@[i as int]@);
            assert(rest.skip(1) =~= field_models(fields@).skip(i + 1));
        }
        if fields[i].number == number {
            return Some(&fields[i]);
        }
        i += 1;
    }
    None
}

/// Reads the numbers of a kind that fill a payload.
fn read_packed(kind: u32, payload: &[u8]) -> (r: Option<Vec<u64>>)
    ensures
        match packed_numbers(kind, payload@) {
            None => r is None,
            Some(vs) => r matches Some(v) && v@ == vs,
        },
{
    let mut out: Vec<u64> = Vec::new();
    let mut rest = payload;
    while rest.len() > 0
        invariant
            match packed_numbers(kind, rest@) {
                None => packed_numbers(kind, payload@) is None,
                Some(vs) => packed_numbers(kind, payload@) == Some(out@ + vs),
            },
        decreases rest@.len(),
    {
        match take_number(kind, rest) {
            None => {
                return None;
            },
            Some((value, tail)) => {
                let ghost before = out@;
                out.push(value);
                proof {
                    if let Some(vs) = packed_numbers(kind, tail@) {
                        assert(before + (seq![value] + vs) =~= out@ + vs);
                    }
                }
                rest = tail;
            },
        }
    }
    assert(out@ + Seq::<u64>::empty() =~= out@);
    Some(out)
}

/// Checks every field of a message against its type.
fn check_typed(
    index: &MessageIndex,
    message: &MessageSchema,
    fields: &[WireField],
    depth: u32,
    Ghost(name): Ghost<Seq<char>>,
) -> (r: bool)
    requires
        index@.contains_key(name),
        index@[name] == message@,
    ensures
        r == typed(index@, name, views(fields@), depth as nat),
    decreases depth, 1nat,
{
    let ghost fs = views(fields@);
    let mut i: usize = 0;
    assert(fs.take(0) =~= Seq::<FieldView>::empty());
    while i < fields.len()
        invariant
            i <= fields@.len(),
            fs == views(fields@),
            index@.contains_key(name),
            index@[name] == message@,
            typed(index@, name, fs.take(i as int), depth as nat),
        decreases fields@.len() - i,
    {
        let field: WireField = fields[i];
        proof {
            let next = fs.take(i + 1);
            assert(next.drop_last() =~= fs.take(i as int));
            assert(next.last() == field@);
        }
        if !check_typed_field(index, message, field, depth, Ghost(name)) {
            proof {
                lemma_untyped_prefix(index@, name, fs, depth as nat, i + 1);
            }
            return false;
        }
        i += 1;
    }
    assert(fs.take(fs.len() as int) =~= fs);
    true
}

/// A message with an ill-typed front is ill-typed.
proof fn lemma_untyped_prefix(
    index: IndexView,
    message: Seq<char>,
    fields: Seq<FieldView>,
    depth: nat,
    n: int,
)
    requires
        0 <= n <= fields.len(),
        !typed(index, message, fields.take(n), depth),
    ensures
        !typed(index, message, fields, depth),
    decreases fields.len(),
{
    if n == fields.len() {
        assert(fields.take(n) =~= fields);
    } else {
        assert(fields.drop_last().take(n) =~= fields.take(n));
        lemma_untyped_prefix(index, message, fields.drop_last(), depth, n);
    }
}

/// Checks one field against the message type.
fn check_typed_field(
    index: &MessageIndex,
    message: &MessageSchema,
    field: WireField,
    depth: u32,
    Ghost(name): Ghost<Seq<char>>,
) -> (r: bool)
    requires
        index@.contains_key(name),
        index@[name] == message@,
    ensures
        r == typed_field(index@, name, field@, depth as nat),
    decreases depth, 0nat,
{
    match find_field(&message.fields, field.number) {
        None => depth > 0,
        Some(declared) => {
            if declared.kind == KIND_STRING {
                match field.value {
                    WireValue::Bytes(p) => utf8_text(p).is_some(),
                    _ => false,
                }
            } else if declared.kind == KIND_BYTES {
                match field.value {
                    WireValue::Bytes(_) => true,
                    _ => false,
                }
            } else if has_number(declared.kind) {
                match field.value {
                    WireValue::Bytes(p) => declared.label == LABEL_REPEATED && read_packed(
                        declared.kind,
                        p,
                    ).is_some(),
                    _ => read_single(declared.kind, field.value).is_some(),
                }
            } else if declared.kind == KIND_MESSAGE {
                match field.value {
                    WireValue::Bytes(p) => {
                        if depth == 0 {
                            return false;
                        }
                        match index.get(declared.message_type.as_str()) {
                            None => false,
                            Some(inner) => {
                                let maps = find_maps(index, inner);
                                match split_fields(p, maps.as_slice(), depth - 1) {
                                    None => false,
                                    Some(fs) => check_typed(
                                        index,
                                        inner,
                                        fs.as_slice(),
                                        depth - 1,
                                        Ghost(declared.message_type@),
                                    ),
                                }
                            },
                        }
                    },
                    _ => false,
                }
            } else {
                depth > 0
            }
        },
    }
}

/// The fields of a message that a payload holds; none where it is malformed.
pub open spec fn fields_in(payload: Seq<u8>, maps: Seq<u32>, depth: nat) -> Seq<FieldView> {
    match read_fields(payload, maps, depth) {
        None => Seq::empty(),
        Some(fs) => fs,
    }
}

/// A varint as a signed number of 64 bits.
pub open spec fn signed64(v: u64) -> int {
    if v < 0x8000_0000_0000_0000 {
        v as int
    } else {
        v - 0x1_0000_0000_0000_0000
    }
}

/// The low 32 bits of a varint as a signed number.
pub open spec fn signed32(v: u64) -> int {
    let low = v % 0x1_0000_0000;
    if low < 0x8000_0000 {
        low as int
    } else {
        low - 0x1_0000_0000
    }
}

/// The signed number that a zigzag code stands for.
pub open spec fn zigzag(v: nat) -> int {
    if v % 2 == 0 {
        (v / 2) as int
    } else {
        -(v / 2) - 1
    }
}

/// The JSON form of a number or a truth value of a kind, from its bits. Kinds of
/// 32 bits take the low ones.
pub open spec fn number_json(kind: u32, v: u64) -> JsonView {
    let low = v % 0x1_0000_0000;
    if kind == KIND_BOOL {
        JsonView::Bool(v != 0)
    } else if kind == KIND_INT32 || kind == KIND_ENUM || kind == KIND_SFIXED32 {
        JsonView::Int(signed32(v))
    } else if kind == KIND_UINT32 || kind == KIND_FIXED32 {
        JsonView::Int(low as int)
    } else if kind == KIND_UINT64 || kind == KIND_FIXED64 {
        JsonView::Int(v as int)
    } else if kind == KIND_SINT32 {
        JsonView::Int(zigzag(low as nat))
    } else if kind == KIND_SINT64 {
        JsonView::Int(zigzag(v as nat))
    } else if kind == KIND_DOUBLE {
        JsonView::Double(v)
    } else if kind == KIND_FLOAT {
        JsonView::Float(low as u32)
    } else {
        JsonView::Int(signed64(v))
    }
}

/// The JSON form of a scalar that is sent as bytes: texts as they are, other
/// bytes in base64.
pub open spec fn bytes_json(kind: u32, p: Seq<u8>) -> JsonView {
    if kind == KIND_STRING {
        JsonView::Str(plain_text(p))
    } else {
        JsonView::Str(base64_text(p))
    }
}

/// The bits of all numbers of a kind in field `number`, packed ones among them.
pub open spec fn all_numbers(kind: u32, fields: Seq<FieldView>, number: u32) -> Seq<u64>
    decreases fields.len(),
{
    if fields.len() == 0 {
        Seq::empty()
    } else {
        let before = all_numbers(kind, fields.drop_last(), number);
        if fields.last().number != number {
            before
        } else {
            match fields.last().value {
                ValueView::Bytes(p) => match packed_numbers(kind, p) {
                    None => before,
                    Some(vs) => before + vs,
                },
                _ => match single_number(kind, fields.last().value) {
                    None => before,
                    Some(v) => before.push(v),
                },
            }
        }
    }
}

/// The bits of the last number of a kind in field `number`.
pub open spec fn last_number(kind: u32, fields: Seq<FieldView>, number: u32) -> Option<u64>
    decreases fields.len(),
{
    if fields.len() == 0 {
        None
    } else {
        match single_number(kind, fields.last().value) {
            Some(v) if fields.last().number == number => Some(v),
            _ => last_number(kind, fields.drop_last(), number),
        }
    }
}

/// The text of field `number`; empty where it is absent.
pub open spec fn text_at(fields: Seq<FieldView>, number: u32) -> Seq<char> {
    match last_bytes(fields, number) {
        None => Seq::empty(),
        Some(p) => plain_text(p),
    }
}

/// The number in varint field `number`; zero where it is absent.
pub open spec fn varint_at(fields: Seq<FieldView>, number: u32) -> u64 {
    match last_varint(fields, number) {
        None => 0,
        Some(v) => v,
    }
}

/// Whether the values of a message type carry JSON text.
pub open spec fn carries_json(message: Seq<char>) -> bool {
    message == ".k8s.io.apimachinery.pkg.runtime.RawExtension"@ || message
        == ".k8s.io.apimachinery.pkg.apis.meta.v1.FieldsV1"@ || message
        == ".k8s.io.apiextensions_apiserver.pkg.apis.apiextensions.v1.JSON"@
}

/// The JSON form of a message type that is a single value: an instant is its
/// RFC 3339 text, or `null` where nothing was sent; a quantity is its text; a
/// number or text is the one that its type field tells; JSON text is carried as
/// it is, and is `null` where there is none.
pub open spec fn single_value(message: Seq<char>, fields: Seq<FieldView>) -> Option<JsonView> {
    if message == ".k8s.io.apimachinery.pkg.apis.meta.v1.Time"@ {
        if last_varint(fields, 1) is None && last_varint(fields, 2) is None {
            Some(JsonView::Null)
        } else {
            Some(JsonView::Str(rfc3339(signed64(varint_at(fields, 1)))))
        }
    } else if message == ".k8s.io.apimachinery.pkg.apis.meta.v1.MicroTime"@ {
        if last_varint(fields, 1) is None && last_varint(fields, 2) is None {
            Some(JsonView::Null)
        } else {
            Some(
                JsonView::Str(
                    rfc3339_micro(signed64(varint_at(fields, 1)), signed32(varint_at(fields, 2))),
                ),
            )
        }
    } else if message == ".k8s.io.apimachinery.pkg.api.resource.Quantity"@ {
        if last_bytes(fields, 1) is None {
            Some(JsonView::Str("0"@))
        } else {
            Some(JsonView::Str(text_at(fields, 1)))
        }
    } else if message == ".k8s.io.apimachinery.pkg.util.intstr.IntOrString"@ {
        if varint_at(fields, 1) == 0 {
            Some(JsonView::Int(signed32(varint_at(fields, 2))))
        } else {
            Some(JsonView::Str(text_at(fields, 3)))
        }
    } else if carries_json(message) {
        if text_at(fields, 1).len() == 0 {
            Some(JsonView::Null)
        } else {
            Some(JsonView::Raw(text_at(fields, 1)))
        }
    } else {
        None
    }
}

/// The JSON form of a message.
pub open spec fn message_json(
    s: SchemaView,
    message: Seq<char>,
    fields: Seq<FieldView>,
    depth: nat,
) -> JsonView
    decreases depth, 4nat, 0nat,
{
    match single_value(message, fields) {
        Some(v) => v,
        None => JsonView::Object(
            members(s, message, fields, depth, fields_of(s.index, message).len()),
        ),
    }
}

/// The members that the first `n` fields of a message type give its JSON form,
/// each field setting its own after those before it.
pub open spec fn members(
    s: SchemaView,
    message: Seq<char>,
    fields: Seq<FieldView>,
    depth: nat,
    n: nat,
) -> Seq<(Seq<char>, JsonView)>
    decreases depth, 3nat, n,
{
    if n == 0 {
        Seq::empty()
    } else {
        set_members(
            members(s, message, fields, depth, (n - 1) as nat),
            contribution(s, message, fields_of(s.index, message)[n - 1], fields, depth),
        )
    }
}

/// The members that a field gives the JSON form of its message: none where it
/// is left out, those of its own type where it is an inline embed, else one
/// under its key.
pub open spec fn contribution(
    s: SchemaView,
    message: Seq<char>,
    field: FieldModel,
    fields: Seq<FieldView>,
    depth: nat,
) -> Seq<(Seq<char>, JsonView)>
    decreases depth, 2nat, 1nat,
{
    if s.exceptions.is_excluded(message, field.name) {
        Seq::empty()
    } else if s.exceptions.is_inline_embed(message, field.name) {
        let payloads = all_bytes(fields, field.number);
        if field.kind != KIND_MESSAGE || payloads.len() == 0 || depth == 0 {
            Seq::empty()
        } else {
            let inner = field.message_type;
            let below = (depth - 1) as nat;
            members(
                s,
                inner,
                merged_fields(payloads, maps_of(s.index, inner), below),
                below,
                fields_of(s.index, inner).len(),
            )
        }
    } else {
        match field_json(s, message, field, fields, depth) {
            None => Seq::empty(),
            Some(v) => seq![(s.exceptions.json_key(message, field), v)],
        }
    }
}

/// The JSON form of a field; `None` where nothing stands for it.
pub open spec fn field_json(
    s: SchemaView,
    message: Seq<char>,
    field: FieldModel,
    fields: Seq<FieldView>,
    depth: nat,
) -> Option<JsonView>
    decreases depth, 2nat, 0nat,
{
    let sent = if field.label == LABEL_REPEATED {
        repeated_json(s, field, fields, depth)
    } else {
        value_json(s, field, fields, depth)
    };
    match presence_of(message, field.name) {
        Presence::AsSent => sent,
        Presence::Null => if sent is None {
            Some(JsonView::Null)
        } else {
            sent
        },
        Presence::EmptyArray => if sent is None {
            Some(JsonView::Array(Seq::empty()))
        } else {
            sent
        },
        Presence::EmptyMessage => if sent is None && depth > 0 {
            Some(message_json(s, field.message_type, Seq::empty(), (depth - 1) as nat))
        } else {
            sent
        },
        Presence::Int(n) => if sent is None || sent == Some(JsonView::Int(0)) {
            Some(JsonView::Int(n as int))
        } else {
            sent
        },
        Presence::UnitQuantity => if sent is None || sent == Some(JsonView::Str(Seq::empty()))
            || sent == Some(JsonView::Str("0"@)) {
            Some(JsonView::Str("1"@))
        } else {
            sent
        },
    }
}

/// The JSON form of a repeated field or a map; `None` where it is empty.
pub open spec fn repeated_json(
    s: SchemaView,
    field: FieldModel,
    fields: Seq<FieldView>,
    depth: nat,
) -> Option<JsonView>
    decreases depth, 1nat, 2nat,
{
    let payloads = all_bytes(fields, field.number);
    if is_number_kind(field.kind) {
        let values = all_numbers(field.kind, fields, field.number);
        if values.len() == 0 {
            None
        } else {
            Some(
                JsonView::Array(
                    Seq::new(values.len(), |i: int| number_json(field.kind, values[i])),
                ),
            )
        }
    } else if payloads.len() == 0 {
        None
    } else if field.kind == KIND_STRING || field.kind == KIND_BYTES {
        Some(
            JsonView::Array(
                Seq::new(payloads.len(), |i: int| bytes_json(field.kind, payloads[i])),
            ),
        )
    } else if is_map(s.index, field) {
        Some(JsonView::Object(entries(s, field.message_type, payloads, depth, payloads.len())))
    } else if field.kind == KIND_MESSAGE {
        Some(JsonView::Array(elements(s, field.message_type, payloads, depth, payloads.len())))
    } else {
        None
    }
}

/// The JSON form of a field that holds one value; `None` where it is absent.
/// Of a scalar that occurs more than once the last one counts; a message is
/// merged. A group has no JSON form.
pub open spec fn value_json(
    s: SchemaView,
    field: FieldModel,
    fields: Seq<FieldView>,
    depth: nat,
) -> Option<JsonView>
    decreases depth, 1nat, 1nat,
{
    if field.kind == KIND_STRING || field.kind == KIND_BYTES {
        match last_bytes(fields, field.number) {
            None => None,
            Some(p) => Some(bytes_json(field.kind, p)),
        }
    } else if is_number_kind(field.kind) {
        match last_number(field.kind, fields, field.number) {
            None => None,
            Some(v) => Some(number_json(field.kind, v)),
        }
    } else if field.kind == KIND_MESSAGE {
        let payloads = all_bytes(fields, field.number);
        if payloads.len() == 0 || depth == 0 {
            None
        } else {
            let inner = field.message_type;
            let below = (depth - 1) as nat;
            Some(
                message_json(
                    s,
                    inner,
                    merged_fields(payloads, maps_of(s.index, inner), below),
                    below,
                ),
            )
        }
    } else {
        None
    }
}

/// The JSON form of the value of a map entry that lacks it.
pub open spec fn default_json(s: SchemaView, field: FieldModel, depth: nat) -> JsonView
    decreases depth, 1nat, 0nat,
{
    if field.kind == KIND_STRING || field.kind == KIND_BYTES {
        JsonView::Str(Seq::empty())
    } else if is_number_kind(field.kind) {
        number_json(field.kind, 0)
    } else if field.kind == KIND_MESSAGE && depth > 0 {
        message_json(s, field.message_type, Seq::empty(), (depth - 1) as nat)
    } else {
        JsonView::Null
    }
}

/// The JSON forms of the first `n` messages of a repeated field.
pub open spec fn elements(
    s: SchemaView,
    message: Seq<char>,
    payloads: Seq<Seq<u8>>,
    depth: nat,
    n: nat,
) -> Seq<JsonView>
    decreases depth, 0nat, n,
{
    if n == 0 || depth == 0 {
        Seq::empty()
    } else {
        let below = (depth - 1) as nat;
        elements(s, message, payloads, depth, (n - 1) as nat).push(
            message_json(
                s,
                message,
                fields_in(payloads[n - 1], maps_of(s.index, message), below),
                below,
            ),
        )
    }
}

/// The JSON form of the value of a map entry.
pub open spec fn entry_value(
    s: SchemaView,
    entry: Seq<char>,
    fields: Seq<FieldView>,
    depth: nat,
) -> JsonView
    decreases depth, 1nat, 2nat,
{
    match field_numbered(fields_of(s.index, entry), 2) {
        None => JsonView::Null,
        Some(value) => match value_json(s, value, fields, depth) {
            Some(v) => v,
            None => default_json(s, value, depth),
        },
    }
}

/// The members that the first `n` entries of a map give its JSON form; of two
/// entries with one key the later one counts.
pub open spec fn entries(
    s: SchemaView,
    entry: Seq<char>,
    payloads: Seq<Seq<u8>>,
    depth: nat,
    n: nat,
) -> Seq<(Seq<char>, JsonView)>
    decreases depth, 0nat, n,
{
    if n == 0 || depth == 0 {
        Seq::empty()
    } else {
        let below = (depth - 1) as nat;
        let fields = fields_in(payloads[n - 1], maps_of(s.index, entry), below);
        set_member(
            entries(s, entry, payloads, depth, (n - 1) as nat),
            text_at(fields, 1),
            entry_value(s, entry, fields, below),
        )
    }
}

fn to_signed64(v: u64) -> (r: i64)
    ensures
        r == signed64(v),
{
    if v < 0x8000_0000_0000_0000 {
        v as i64
    } else {
        -((0xffff_ffff_ffff_ffff - v) as i64) - 1
    }
}

fn to_signed32(v: u64) -> (r: i32)
    ensures
        r == signed32(v),
{
    let low: u64 = v % 0x1_0000_0000;
    if low < 0x8000_0000 {
        low as i32
    } else {
        (low as i64 - 0x1_0000_0000) as i32
    }
}

fn from_zigzag(v: u64) -> (r: i64)
    ensures
        r == zigzag(v as nat),
{
    let half: i64 = (v / 2) as i64;
    if v % 2 == 0 {
        half
    } else {
        -half - 1
    }
}

fn build_unsigned(v: u64) -> (r: Json)
    ensures
        r@ == JsonView::Int(v as int),
{
    if v < 0x8000_0000_0000_0000 {
        Json::Int(v as i64)
    } else {
        Json::UInt(v)
    }
}

/// Builds the JSON form of a number or a truth value.
fn build_number(kind: u32, v: u64) -> (r: Json)
    ensures
        r@ == number_json(kind, v),
{
    let low: u64 = v % 0x1_0000_0000;
    if kind == KIND_BOOL {
        Json::Bool(v != 0)
    } else if kind == KIND_INT32 || kind == KIND_ENUM || kind == KIND_SFIXED32 {
        Json::Int(to_signed32(v) as i64)
    } else if kind == KIND_UINT32 || kind == KIND_FIXED32 {
        build_unsigned(low)
    } else if kind == KIND_UINT64 || kind == KIND_FIXED64 {
        build_unsigned(v)
    } else if kind == KIND_SINT32 {
        Json::Int(from_zigzag(low))
    } else if kind == KIND_SINT64 {
        Json::Int(from_zigzag(v))
    } else if kind == KIND_DOUBLE {
        Json::Double(v)
    } else if kind == KIND_FLOAT {
        Json::Float(low as u32)
    } else {
        Json::Int(to_signed64(v))
    }
}

fn build_bytes(kind: u32, p: &[u8]) -> (r: Json)
    ensures
        r@ == bytes_json(kind, p@),
{
    if kind == KIND_STRING {
        Json::Str(read_plain_text(p))
    } else {
        Json::Str(base64_encode(p))
    }
}

/// Collects all numbers of a field.
fn find_all_numbers(kind: u32, fields: &[WireField], number: u32) -> (r: Vec<u64>)
    ensures
        r@ == all_numbers(kind, views(fields@), number),
{
    let mut out: Vec<u64> = Vec::new();
    let ghost fs = views(fields@);
    let mut i: usize = 0;
    assert(fs.take(0) =~= Seq::<FieldView>::empty());
    assert(out@ =~= Seq::<u64>::empty());
    while i < fields.len()
        invariant
            i <= fields@.len(),
            fs == views(fields@),
            out@ == all_numbers(kind, fs.take(i as int), number),
        decreases fields@.len() - i,
    {
        let field: WireField = fields[i];
        proof {
            let next = fs.take(i + 1);
            assert(next.drop_last() =~= fs.take(i as int));
            assert(next.last() == field@);
        }
        if field.number == number {
            match field.value {
                WireValue::Bytes(p) => {
                    if let Some(vs) = read_packed(kind, p) {
                        let mut more = vs;
                        out.append(&mut more);
                    }
                },
                _ => {
                    if let Some(v) = read_single(kind, field.value) {
                        out.push(v);
                    }
                },
            }
        }
        i += 1;
    }
    assert(fs.take(fs.len() as int) =~= fs);
    out
}

/// Finds the last number of a field.
fn find_last_number(kind: u32, fields: &[WireField], number: u32) -> (r: Option<u64>)
    ensures
        r == last_number(kind, views(fields@), number),
{
    let mut found: Option<u64> = None;
    let ghost fs = views(fields@);
    let mut i: usize = 0;
    assert(fs.take(0) =~= Seq::<FieldView>::empty());
    while i < fields.len()
        invariant
            i <= fields@.len(),
            fs == views(fields@),
            found == last_number(kind, fs.take(i as int), number),
        decreases fields@.len() - i,
    {
        let field: WireField = fields[i];
        proof {
            let next = fs.take(i + 1);
            assert(next.drop_last() =~= fs.take(i as int));
            assert(next.last() == field@);
        }
        if field.number == number {
            if let Some(v) = read_single(kind, field.value) {
                found = Some(v);
            }
        }
        i += 1;
    }
    assert(fs.take(fs.len() as int) =~= fs);
    found
}

fn find_text(fields: &[WireField], number: u32) -> (r: String)
    ensures
        r@ == text_at(views(fields@), number),
{
    match find_last_bytes(fields, number) {
        None => String::new(),
        Some(p) => read_plain_text(p),
    }
}

fn find_varint(fields: &[WireField], number: u32) -> (r: u64)
    ensures
        r == varint_at(views(fields@), number),
{
    match find_last_varint(fields, number) {
        None => 0,
        Some(v) => v,
    }
}

/// Builds the JSON form of a message type that is a single value.
fn build_single(message: &str, fields: &[WireField]) -> (r: Option<Json>)
    ensures
        match single_value(message@, views(fields@)) {
            None => r is None,
            Some(v) => r matches Some(j) && j@ == v,
        },
{
    if str_eq(message, ".k8s.io.apimachinery.pkg.apis.meta.v1.Time") {
        if find_last_varint(fields, 1).is_none() && find_last_varint(fields, 2).is_none() {
            Some(Json::Null)
        } else {
            Some(Json::Str(secs_to_rfc3339(to_signed64(find_varint(fields, 1)))))
        }
    } else if str_eq(message, ".k8s.io.apimachinery.pkg.apis.meta.v1.MicroTime") {
        if find_last_varint(fields, 1).is_none() && find_last_varint(fields, 2).is_none() {
            Some(Json::Null)
        } else {
            let seconds: i64 = to_signed64(find_varint(fields, 1));
            let nanos: i32 = to_signed32(find_varint(fields, 2));
            Some(Json::Str(secs_nanos_to_rfc3339_micro(seconds, nanos)))
        }
    } else if str_eq(message, ".k8s.io.apimachinery.pkg.api.resource.Quantity") {
        if find_last_bytes(fields, 1).is_none() {
            Some(Json::Str("0".to_owned()))
        } else {
            Some(Json::Str(find_text(fields, 1)))
        }
    } else if str_eq(message, ".k8s.io.apimachinery.pkg.util.intstr.IntOrString") {
        if find_varint(fields, 1) == 0 {
            Some(Json::Int(to_signed32(find_varint(fields, 2)) as i64))
        } else {
            Some(Json::Str(find_text(fields, 3)))
        }
    } else if str_eq(message, ".k8s.io.apimachinery.pkg.runtime.RawExtension") || str_eq(
        message,
        ".k8s.io.apimachinery.pkg.apis.meta.v1.FieldsV1",
    ) || str_eq(message, ".k8s.io.apiextensions_apiserver.pkg.apis.apiextensions.v1.JSON") {
        let text = find_text(fields, 1);
        if text.as_str().is_empty() {
            Some(Json::Null)
        } else {
            Some(Json::Raw(text))
        }
    } else {
        None
    }
}

/// The map fields of a message type; none where the index lacks it.
fn maps_by_name(index: &MessageIndex, message: &str) -> (r: Vec<u32>)
    ensures
        r@ == maps_of(index@, message@),
{
    match index.get(message) {
        Some(m) => find_maps(index, m),
        None => {
            let r: Vec<u32> = Vec::new();
            assert(r@ =~= maps_of(index@, message@));
            r
        },
    }
}

/// Splits a payload into fields; none where it is malformed.
fn split_or_none<'a>(payload: &'a [u8], maps: &[u32], depth: u32) -> (r: Vec<WireField<'a>>)
    ensures
        views(r@) == fields_in(payload@, maps@, depth as nat),
{
    match split_fields(payload, maps, depth) {
        Some(fs) => fs,
        None => {
            let r: Vec<WireField<'a>> = Vec::new();
            assert(views(r@) =~= Seq::<FieldView>::empty());
            r
        },
    }
}

/// Sets members one after the other.
fn put_members(out: &mut Vec<(String, Json)>, added: Vec<(String, Json)>)
    ensures
        member_views(final(out)@) == set_members(member_views(old(out)@), member_views(added@)),
    decreases added@.len(),
{
    let mut rest = added;
    match rest.pop() {
        None => {},
        Some((name, value)) => {
            proof {
                assert(member_views(rest@) =~= member_views(added@).drop_last());
                assert(member_views(added@).last() == (name@, value@));
            }
            put_members(out, rest);
            put_member(out, name, value);
        },
    }
}

/// Builds the JSON form of a message.
pub fn build_message(s: &Schema, message: &str, fields: &[WireField], depth: u32) -> (r: Json)
    ensures
        r@ == message_json(s@, message@, views(fields@), depth as nat),
    decreases depth, 4nat,
{
    match build_single(message, fields) {
        Some(v) => v,
        None => {
            let list = build_members(s, message, fields, depth);
            proof {
                lemma_object_view(list);
            }
            Json::Object(list)
        },
    }
}

/// Builds the members of the JSON form of a message.
pub fn build_members(s: &Schema, message: &str, fields: &[WireField], depth: u32) -> (r: Vec<
    (String, Json),
>)
    ensures
        member_views(r@) == members(
            s@,
            message@,
            views(fields@),
            depth as nat,
            fields_of(s@.index, message@).len(),
        ),
    decreases depth, 3nat,
{
    let ghost fs = views(fields@);
    let mut out: Vec<(String, Json)> = Vec::new();
    assert(member_views(out@) =~= Seq::<(Seq<char>, JsonView)>::empty());
    let schema = match s.index.get(message) {
        None => {
            return out;
        },
        Some(m) => m,
    };
    let mut i: usize = 0;
    while i < schema.fields.len()
        invariant
            i <= schema.fields@.len(),
            fs == views(fields@),
            fields_of(s@.index, message@) == field_models(schema.fields@),
            member_views(out@) == members(s@, message@, fs, depth as nat, i as nat),
        decreases schema.fields@.len() - i,
    {
        let field = &schema.fields[i];
        proof {
            let none = Seq::<(Seq<char>, JsonView)>::empty();
            assert(fields_of(s@.index, message@)[i as int] == field@);
            assert(set_members(member_views(out@), none) == member_views(out@));
        }
        let ghost before = member_views(out@);
        let ghost given = contribution(s@, message@, field@, fs, depth as nat);
        if s.exceptions.is_excluded(message, field.name.as_str()) {
            assert(given == Seq::<(Seq<char>, JsonView)>::empty());
        } else if s.exceptions.is_inline_embed(message, field.name.as_str()) {
            let payloads = find_all_bytes(fields, field.number);
            if field.kind == KIND_MESSAGE && payloads.len() > 0 && depth > 0 {
                let inner = field.message_type.as_str();
                let maps = maps_by_name(&s.index, inner);
                let merged = merge_payloads(payloads.as_slice(), maps.as_slice(), depth - 1);
                let added = build_members(s, inner, merged.as_slice(), depth - 1);
                assert(given == member_views(added@));
                put_members(&mut out, added);
            } else {
                assert(given == Seq::<(Seq<char>, JsonView)>::empty());
            }
        } else {
            match build_field(s, message, field, fields, depth) {
                None => {
                    assert(given == Seq::<(Seq<char>, JsonView)>::empty());
                },
                Some(v) => {
                    let key = s.exceptions.json_key(message, field);
                    proof {
                        assert(given == seq![(key@, v@)]);
                        lemma_set_one(before, key@, v@);
                    }
                    put_member(&mut out, key, v);
                },
            }
        }
        assert(member_views(out@) == set_members(before, given));
        i += 1;
    }
    out
}

/// Builds the JSON form of a field.
fn build_field(
    s: &Schema,
    message: &str,
    field: &FieldSchema,
    fields: &[WireField],
    depth: u32,
) -> (r: Option<Json>)
    ensures
        match field_json(s@, message@, field@, views(fields@), depth as nat) {
            None => r is None,
            Some(v) => r matches Some(j) && j@ == v,
        },
    decreases depth, 2nat,
{
    let sent = if field.label == LABEL_REPEATED {
        build_repeated(s, field, fields, depth)
    } else {
        build_value(s, field, fields, depth)
    };
    match presence(message, field.name.as_str()) {
        Presence::AsSent => sent,
        Presence::Null => match sent {
            None => Some(Json::Null),
            Some(v) => Some(v),
        },
        Presence::EmptyArray => match sent {
            None => {
                let none: Vec<Json> = Vec::new();
                proof {
                    lemma_array_view(none);
                    assert(json_views(none@) =~= Seq::<JsonView>::empty());
                }
                Some(Json::Array(none))
            },
            Some(v) => Some(v),
        },
        Presence::EmptyMessage => match sent {
            None => if depth > 0 {
                let none: Vec<WireField> = Vec::new();
                assert(views(none@) =~= Seq::<FieldView>::empty());
                Some(build_message(s, field.message_type.as_str(), none.as_slice(), depth - 1))
            } else {
                None
            },
            Some(v) => Some(v),
        },
        Presence::Int(n) => match sent {
            None => Some(Json::Int(n)),
            Some(Json::Int(v)) => if v == 0 {
                Some(Json::Int(n))
            } else {
                Some(Json::Int(v))
            },
            Some(Json::UInt(v)) => if v == 0 {
                Some(Json::Int(n))
            } else {
                Some(Json::UInt(v))
            },
            Some(v) => Some(v),
        },
        Presence::UnitQuantity => match sent {
            None => Some(Json::Str("1".to_owned())),
            Some(Json::Str(t)) => {
                proof {
                    if t@.len() == 0 {
                        assert(t@ =~= Seq::<char>::empty());
                    }
                }
                if t.as_str().is_empty() || str_eq(t.as_str(), "0") {
                    Some(Json::Str("1".to_owned()))
                } else {
                    Some(Json::Str(t))
                }
            },
            Some(v) => Some(v),
        },
    }
}

/// Builds the JSON form of a repeated field or a map.
fn build_repeated(s: &Schema, field: &FieldSchema, fields: &[WireField], depth: u32) -> (r: Option<
    Json,
>)
    ensures
        match repeated_json(s@, field@, views(fields@), depth as nat) {
            None => r is None,
            Some(v) => r matches Some(j) && j@ == v,
        },
    decreases depth, 1nat,
{
    if has_number(field.kind) {
        let values = find_all_numbers(field.kind, fields, field.number);
        if values.len() == 0 {
            return None;
        }
        return Some(Json::Array(build_numbers(field.kind, &values)));
    }
    let payloads = find_all_bytes(fields, field.number);
    if payloads.len() == 0 {
        return None;
    }
    if field.kind == KIND_STRING || field.kind == KIND_BYTES {
        Some(Json::Array(build_byte_list(field.kind, &payloads)))
    } else if is_map_field(&s.index, field) {
        let list = build_entries(s, field.message_type.as_str(), &payloads, depth);
        proof {
            lemma_object_view(list);
        }
        Some(Json::Object(list))
    } else if field.kind == KIND_MESSAGE {
        let list = build_elements(s, field.message_type.as_str(), &payloads, depth);
        proof {
            lemma_array_view(list);
        }
        Some(Json::Array(list))
    } else {
        None
    }
}

fn build_numbers(kind: u32, values: &Vec<u64>) -> (r: Vec<Json>)
    ensures
        Json::Array(r)@ == JsonView::Array(
            Seq::new(values@.len(), |i: int| number_json(kind, values@[i])),
        ),
{
    let mut out: Vec<Json> = Vec::new();
    let mut i: usize = 0;
    while i < values.len()
        invariant
            i <= values@.len(),
            out@.len() == i,
            forall|j: int| 0 <= j < i ==> #[trigger] out@[j]@ == number_json(kind, values@[j]),
        decreases values@.len() - i,
    {
        out.push(build_number(kind, values[i]));
        i += 1;
    }
    proof {
        lemma_array_view(out);
        assert(json_views(out@) =~= Seq::new(
            values@.len(),
            |i: int| number_json(kind, values@[i]),
        ));
    }
    out
}

fn build_byte_list(kind: u32, payloads: &Vec<&[u8]>) -> (r: Vec<Json>)
    ensures
        Json::Array(r)@ == JsonView::Array(
            Seq::new(
                contents(payloads@).len(),
                |i: int| bytes_json(kind, contents(payloads@)[i]),
            ),
        ),
{
    let mut out: Vec<Json> = Vec::new();
    let mut i: usize = 0;
    while i < payloads.len()
        invariant
            i <= payloads@.len(),
            out@.len() == i,
            forall|j: int|
                0 <= j < i ==> #[trigger] out@[j]@ == bytes_json(kind, contents(payloads@)[j]),
        decreases payloads@.len() - i,
    {
        out.push(build_bytes(kind, payloads[i]));
        i += 1;
    }
    proof {
        lemma_array_view(out);
        assert(json_views(out@) =~= Seq::new(
            contents(payloads@).len(),
            |i: int| bytes_json(kind, contents(payloads@)[i]),
        ));
    }
    out
}

/// Builds the JSON form of a field that holds one value.
fn build_value(s: &Schema, field: &FieldSchema, fields: &[WireField], depth: u32) -> (r: Option<
    Json,
>)
    ensures
        match value_json(s@, field@, views(fields@), depth as nat) {
            None => r is None,
            Some(v) => r matches Some(j) && j@ == v,
        },
    decreases depth, 1nat,
{
    if field.kind == KIND_STRING || field.kind == KIND_BYTES {
        match find_last_bytes(fields, field.number) {
            None => None,
            Some(p) => Some(build_bytes(field.kind, p)),
        }
    } else if has_number(field.kind) {
        match find_last_number(field.kind, fields, field.number) {
            None => None,
            Some(v) => Some(build_number(field.kind, v)),
        }
    } else if field.kind == KIND_MESSAGE {
        let payloads = find_all_bytes(fields, field.number);
        if payloads.len() == 0 || depth == 0 {
            return None;
        }
        let inner = field.message_type.as_str();
        let maps = maps_by_name(&s.index, inner);
        let merged = merge_payloads(payloads.as_slice(), maps.as_slice(), depth - 1);
        Some(build_message(s, inner, merged.as_slice(), depth - 1))
    } else {
        None
    }
}

/// Builds the JSON form of the value of a map entry that lacks it.
fn build_default(s: &Schema, field: &FieldSchema, depth: u32) -> (r: Json)
    ensures
        r@ == default_json(s@, field@, depth as nat),
    decreases depth, 1nat,
{
    if field.kind == KIND_STRING || field.kind == KIND_BYTES {
        Json::Str(String::new())
    } else if has_number(field.kind) {
        build_number(field.kind, 0)
    } else if field.kind == KIND_MESSAGE && depth > 0 {
        let none: Vec<WireField> = Vec::new();
        assert(views(none@) =~= Seq::<FieldView>::empty());
        build_message(s, field.message_type.as_str(), none.as_slice(), depth - 1)
    } else {
        Json::Null
    }
}

/// Builds the JSON forms of the messages of a repeated field.
fn build_elements(s: &Schema, message: &str, payloads: &Vec<&[u8]>, depth: u32) -> (r: Vec<Json>)
    ensures
        json_views(r@) == elements(
            s@,
            message@,
            contents(payloads@),
            depth as nat,
            payloads@.len(),
        ),
    decreases depth, 0nat,
{
    let mut out: Vec<Json> = Vec::new();
    assert(json_views(out@) =~= Seq::<JsonView>::empty());
    if depth == 0 {
        return out;
    }
    let maps = maps_by_name(&s.index, message);
    let ghost all = contents(payloads@);
    let mut i: usize = 0;
    while i < payloads.len()
        invariant
            i <= payloads@.len(),
            depth > 0,
            all == contents(payloads@),
            maps@ == maps_of(s@.index, message@),
            json_views(out@) == elements(s@, message@, all, depth as nat, i as nat),
        decreases payloads@.len() - i,
    {
        assert(all[i as int] == payloads@[i as int]@);
        let fields = split_or_none(payloads[i], maps.as_slice(), depth - 1);
        let value = build_message(s, message, fields.as_slice(), depth - 1);
        let ghost before = out@;
        out.push(value);
        assert(json_views(out@) =~= json_views(before).push(value@));
        i += 1;
    }
    out
}

/// Builds the JSON form of the value of a map entry.
fn build_entry_value(s: &Schema, entry: &str, fields: &[WireField], depth: u32) -> (r: Json)
    ensures
        r@ == entry_value(s@, entry@, views(fields@), depth as nat),
    decreases depth, 2nat,
{
    match s.index.get(entry) {
        None => Json::Null,
        Some(schema) => match find_field(&schema.fields, 2) {
            None => Json::Null,
            Some(value) => match build_value(s, value, fields, depth) {
                Some(v) => v,
                None => build_default(s, value, depth),
            },
        },
    }
}

/// Builds the members of the JSON form of a map.
fn build_entries(s: &Schema, entry: &str, payloads: &Vec<&[u8]>, depth: u32) -> (r: Vec<
    (String, Json),
>)
    ensures
        member_views(r@) == entries(
            s@,
            entry@,
            contents(payloads@),
            depth as nat,
            payloads@.len(),
        ),
    decreases depth, 0nat,
{
    let mut out: Vec<(String, Json)> = Vec::new();
    assert(member_views(out@) =~= Seq::<(Seq<char>, JsonView)>::empty());
    if depth == 0 {
        return out;
    }
    let maps = maps_by_name(&s.index, entry);
    let ghost all = contents(payloads@);
    let mut i: usize = 0;
    while i < payloads.len()
        invariant
            i <= payloads@.len(),
            depth > 0,
            all == contents(payloads@),
            maps@ == maps_of(s@.index, entry@),
            member_views(out@) == entries(s@, entry@, all, depth as nat, i as nat),
        decreases payloads@.len() - i,
    {
        assert(all[i as int] == payloads@[i as int]@);
        let fields = split_or_none(payloads[i], maps.as_slice(), depth - 1);
        let key = find_text(fields.as_slice(), 1);
        let value = build_entry_value(s, entry, fields.as_slice(), depth - 1);
        put_member(&mut out, key, value);
        i += 1;
    }
    out
}

/// The members of the JSON form of a body of a message type; `None` where the
/// index lacks the type or the body is malformed or does not hold to it.
pub open spec fn decoded_members(s: SchemaView, message: Seq<char>, raw: Seq<u8>) -> Option<
    Seq<(Seq<char>, JsonView)>,
> {
    let depth = RECURSION_LIMIT as nat;
    if !s.index.contains_key(message) {
        None
    } else {
        match read_fields(raw, maps_of(s.index, message), depth) {
            None => None,
            Some(fields) => if typed(s.index, message, fields, depth) {
                Some(members(s, message, fields, depth, fields_of(s.index, message).len()))
            } else {
                None
            },
        }
    }
}

/// Decodes a body of a message type to the members of its JSON form.
pub fn decode_members(s: &Schema, message: &str, raw: &[u8]) -> (r: Option<Vec<(String, Json)>>)
    ensures
        match decoded_members(s@, message@, raw@) {
            None => r is None,
            Some(list) => r matches Some(v) && member_views(v@) == list,
        },
{
    let schema = match s.index.get(message) {
        None => {
            return None;
        },
        Some(m) => m,
    };
    let maps = find_maps(&s.index, schema);
    let depth: u32 = RECURSION_LIMIT;
    let fields = match split_fields(raw, maps.as_slice(), depth) {
        None => {
            return None;
        },
        Some(fields) => fields,
    };
    if !check_typed(&s.index, schema, fields.as_slice(), depth, Ghost(message@)) {
        return None;
    }
    Some(build_members(s, message, fields.as_slice(), depth))
}

proof fn lemma_other_field_unseen(
    fields: Seq<FieldView>,
    extra: FieldView,
    number: u32,
    kind: u32,
)
    requires
        extra.number != number,
    ensures
        all_bytes(fields.push(extra), number) == all_bytes(fields, number),
        last_bytes(fields.push(extra), number) == last_bytes(fields, number),
        last_number(kind, fields.push(extra), number) == last_number(kind, fields, number),
        all_numbers(kind, fields.push(extra), number) == all_numbers(kind, fields, number),
{
    assert(fields.push(extra).drop_last() =~= fields);
    assert(fields.push(extra).last() == extra);
}

/// A field that a message type does not declare leaves no trace in the JSON
/// form: what a newer client sends beyond the schema is stepped over.
pub proof fn law_undeclared_field_leaves_no_trace(
    s: SchemaView,
    message: Seq<char>,
    fields: Seq<FieldView>,
    extra: FieldView,
    depth: nat,
    n: nat,
)
    requires
        n <= fields_of(s.index, message).len(),
        forall|j: int|
            0 <= j < fields_of(s.index, message).len() ==> #[trigger] fields_of(
                s.index,
                message,
            )[j].number != extra.number,
    ensures
        members(s, message, fields.push(extra), depth, n) == members(s, message, fields, depth, n),
    decreases n,
{
    if n > 0 {
        let field = fields_of(s.index, message)[n - 1];
        law_undeclared_field_leaves_no_trace(s, message, fields, extra, depth, (n - 1) as nat);
        let more = fields.push(extra);
        lemma_other_field_unseen(fields, extra, field.number, field.kind);
        assert(repeated_json(s, field, more, depth) == repeated_json(s, field, fields, depth));
        assert(value_json(s, field, more, depth) == value_json(s, field, fields, depth));
        assert(field_json(s, message, field, more, depth) == field_json(
            s,
            message,
            field,
            fields,
            depth,
        ));
        assert(contribution(s, message, field, more, depth) == contribution(
            s,
            message,
            field,
            fields,
            depth,
        ));
    }
}

/// The message types whose keys are not looked into are those whose JSON form
/// is a single value.
pub proof fn law_opaque_types_are_single_values(message: Seq<char>, fields: Seq<FieldView>)
    ensures
        kubernetes_exceptions().is_opaque(message) <==> single_value(message, fields) is Some,
{
    let opaque = kubernetes_exceptions().opaque;
    assert(opaque[0] == ".k8s.io.apimachinery.pkg.apis.meta.v1.Time"@);
    assert(opaque[1] == ".k8s.io.apimachinery.pkg.apis.meta.v1.MicroTime"@);
    assert(opaque[2] == ".k8s.io.apimachinery.pkg.api.resource.Quantity"@);
    assert(opaque[3] == ".k8s.io.apimachinery.pkg.util.intstr.IntOrString"@);
    assert(opaque[4] == ".k8s.io.apimachinery.pkg.runtime.RawExtension"@);
    assert(opaque[5] == ".k8s.io.apimachinery.pkg.apis.meta.v1.FieldsV1"@);
    assert(opaque[6]
        == ".k8s.io.apiextensions_apiserver.pkg.apis.apiextensions.v1.JSON"@);
    assert(opaque.len() == 7);
}

/// What must stand in the JSON form of a message does so, whatever was sent.
pub proof fn law_required_fields_are_present(
    s: SchemaView,
    message: Seq<char>,
    field: FieldModel,
    fields: Seq<FieldView>,
    depth: nat,
)
    requires
        depth > 0,
        presence_of(message, field.name) != Presence::AsSent,
    ensures
        field_json(s, message, field, fields, depth) is Some,
{
}

/// A divisor is never zero in the JSON form, nor is the mode of the files of a
/// downward API volume.
pub proof fn law_divisors_and_modes_are_never_zero(
    s: SchemaView,
    message: Seq<char>,
    field: FieldModel,
    fields: Seq<FieldView>,
    depth: nat,
)
    ensures
        presence_of(message, field.name) == Presence::UnitQuantity ==> field_json(
            s,
            message,
            field,
            fields,
            depth,
        ) != Some(JsonView::Str("0"@)),
        presence_of(message, field.name) == Presence::Int(DEFAULT_FILE_MODE) ==> field_json(
            s,
            message,
            field,
            fields,
            depth,
        ) != Some(JsonView::Int(0)),
{
    reveal_strlit("0");
    reveal_strlit("1");
    assert("0"@[0] != "1"@[0]);
}

/// Every contribution survives: a member that one field gives, and no other
/// field of the message type gives, stands in the JSON form as that field gives
/// it.
pub proof fn law_every_contribution_survives(
    s: SchemaView,
    message: Seq<char>,
    fields: Seq<FieldView>,
    depth: nat,
    j: int,
    key: Seq<char>,
)
    requires
        0 <= j < fields_of(s.index, message).len(),
        forall|k: int|
            0 <= k < fields_of(s.index, message).len() && k != j ==> lookup(
                contribution(s, message, #[trigger] fields_of(s.index, message)[k], fields, depth),
                key,
            ) is None,
    ensures
        lookup(
            members(s, message, fields, depth, fields_of(s.index, message).len()),
            key,
        ) == lookup(
            contribution(s, message, fields_of(s.index, message)[j], fields, depth),
            key,
        ),
{
    lemma_contribution_survives(
        s,
        message,
        fields,
        depth,
        j,
        key,
        fields_of(s.index, message).len(),
    );
}

proof fn lemma_contribution_survives(
    s: SchemaView,
    message: Seq<char>,
    fields: Seq<FieldView>,
    depth: nat,
    j: int,
    key: Seq<char>,
    n: nat,
)
    requires
        0 <= j < fields_of(s.index, message).len(),
        n <= fields_of(s.index, message).len(),
        forall|k: int|
            0 <= k < fields_of(s.index, message).len() && k != j ==> lookup(
                contribution(s, message, #[trigger] fields_of(s.index, message)[k], fields, depth),
                key,
            ) is None,
    ensures
        lookup(members(s, message, fields, depth, n), key) == if j < n {
            lookup(contribution(s, message, fields_of(s.index, message)[j], fields, depth), key)
        } else {
            None
        },
    decreases n,
{
    if n > 0 {
        let field = fields_of(s.index, message)[n - 1];
        lemma_contribution_survives(s, message, fields, depth, j, key, (n - 1) as nat);
        law_set_members_lookup(
            members(s, message, fields, depth, (n - 1) as nat),
            contribution(s, message, field, fields, depth),
            key,
        );
    }
}

/// Every field survives: a field that is neither left out nor inline gives one
/// member, its JSON form under its key.
pub proof fn law_every_field_has_its_member(
    s: SchemaView,
    message: Seq<char>,
    field: FieldModel,
    fields: Seq<FieldView>,
    depth: nat,
)
    requires
        !s.exceptions.is_excluded(message, field.name),
        !s.exceptions.is_inline_embed(message, field.name),
    ensures
        lookup(
            contribution(s, message, field, fields, depth),
            s.exceptions.json_key(message, field),
        ) == field_json(s, message, field, fields, depth),
{
}

/// A message of a flat type shows no key but those that its type is expected to
/// produce.
pub proof fn law_shown_keys_are_expected(
    s: SchemaView,
    message: Seq<char>,
    fields: Seq<FieldView>,
    depth: nat,
    key: Seq<char>,
)
    requires
        s.index.dom().finite(),
        is_flat(s.index, s.exceptions, message),
        lookup(
            members(s, message, fields, depth, fields_of(s.index, message).len()),
            key,
        ) is Some,
    ensures
        json_keys(s.index, s.exceptions, message) matches Some(keys) && keys.contains(key),
{
    let count = fields_of(s.index, message).len();
    law_keys_of_a_flat_message(s.index, s.exceptions, message);
    let j = lemma_shown_key_has_a_field(s, message, fields, depth, key, count);
    let field = s.index[message].fields[j];
    assert(key == path_below(Seq::empty(), s.exceptions.json_key(message, field)));
}

proof fn lemma_shown_key_has_a_field(
    s: SchemaView,
    message: Seq<char>,
    fields: Seq<FieldView>,
    depth: nat,
    key: Seq<char>,
    n: nat,
) -> (j: int)
    requires
        is_flat(s.index, s.exceptions, message),
        n <= fields_of(s.index, message).len(),
        lookup(members(s, message, fields, depth, n), key) is Some,
    ensures
        0 <= j < n,
        key == s.exceptions.json_key(message, fields_of(s.index, message)[j]),
    decreases n,
{
    if n == 0 {
        0
    } else {
        let field = s.index[message].fields[n - 1];
        law_set_members_lookup(
            members(s, message, fields, depth, (n - 1) as nat),
            contribution(s, message, field, fields, depth),
            key,
        );
        if lookup(members(s, message, fields, depth, (n - 1) as nat), key) is Some {
            lemma_shown_key_has_a_field(s, message, fields, depth, key, (n - 1) as nat)
        } else {
            let given = contribution(s, message, field, fields, depth);
            let none = Seq::<(Seq<char>, JsonView)>::empty();
            let name = s.exceptions.json_key(message, field);
            assert(lookup(given, key) is Some);
            assert(given.len() == 1 && given[0].0 == name);
            assert(given.drop_last() =~= none);
            assert(member_index(none, key) == -1);
            n - 1
        }
    }
}

/// Numbers are shown as what was sent: signed ones of 32 and 64 bits, also where
/// they are negative, unsigned ones, those in zigzag code, truth values, and real
/// numbers bit by bit.
pub proof fn law_numbers_are_shown_as_sent(v: u64, i: int)
    ensures
        -0x8000_0000_0000_0000 <= i <= 0x7fff_ffff_ffff_ffff ==> {
            let bits = (i % 0x1_0000_0000_0000_0000) as u64;
            let code = if i >= 0 {
                (2 * i) as u64
            } else {
                (-2 * i - 1) as u64
            };
            &&& number_json(3, bits) == JsonView::Int(i)
            &&& number_json(16, bits) == JsonView::Int(i)
            &&& number_json(18, code) == JsonView::Int(i)
            &&& -0x8000_0000 <= i <= 0x7fff_ffff ==> {
                &&& number_json(5, bits) == JsonView::Int(i)
                &&& number_json(14, bits) == JsonView::Int(i)
                &&& number_json(15, (i % 0x1_0000_0000) as u64) == JsonView::Int(i)
                &&& number_json(17, code) == JsonView::Int(i)
            }
        },
        number_json(4, v) == JsonView::Int(v as int),
        number_json(6, v) == JsonView::Int(v as int),
        v <= 0xffff_ffff ==> number_json(13, v) == JsonView::Int(v as int),
        v <= 0xffff_ffff ==> number_json(7, v) == JsonView::Int(v as int),
        number_json(8, v) == JsonView::Bool(v != 0),
        number_json(1, v) == JsonView::Double(v),
        v <= 0xffff_ffff ==> number_json(2, v) == JsonView::Float(v as u32),
{
    if -0x8000_0000_0000_0000 <= i <= 0x7fff_ffff_ffff_ffff {
        if i < 0 {
            assert(i % 0x1_0000_0000_0000_0000 == i + 0x1_0000_0000_0000_0000);
            assert((-2 * i - 1) % 2 == 1 && (-2 * i - 1) / 2 == -i - 1);
        } else {
            assert((2 * i) % 2 == 0 && (2 * i) / 2 == i);
        }
        if -0x8000_0000 <= i <= 0x7fff_ffff {
            if i < 0 {
                assert((i + 0x1_0000_0000_0000_0000) % 0x1_0000_0000 == i + 0x1_0000_0000);
                assert(i % 0x1_0000_0000 == i + 0x1_0000_0000);
            }
        }
    }
}

/// Texts are shown as they are, whatever their characters, and bytes in base64.
pub proof fn law_texts_are_shown_as_sent(text: Seq<char>, p: Seq<u8>)
    ensures
        bytes_json(9, vstd::utf8::encode_utf8(text)) == JsonView::Str(text),
        bytes_json(12, p) == JsonView::Str(base64_text(p)),
{
    crate::envelope::lemma_text_round_trip(text);
}

/// The first field that declares a number is the one that counts.
pub proof fn law_first_declaration_counts(fields: Seq<FieldModel>, number: u32, j: int)
    requires
        0 <= j <= fields.len(),
        forall|k: int| 0 <= k < j ==> (#[trigger] fields[k]).number != number,
        j < fields.len() ==> fields[j].number == number,
    ensures
        field_numbered(fields, number) == if j < fields.len() {
            Some(fields[j])
        } else {
            None
        },
    decreases fields.len(),
{
    if j > 0 {
        let rest = fields.skip(1);
        assert(fields[0].number != number);
        assert forall|k: int| 0 <= k < j - 1 implies (#[trigger] rest[k]).number != number by {
            assert(rest[k] == fields[k + 1]);
        }
        if j < fields.len() {
            assert(rest[j - 1] == fields[j]);
        }
        law_first_declaration_counts(rest, number, j - 1);
    }
}

/// A list of numbers of fixed width fills its payload exactly where the width
/// divides the length.
pub proof fn law_packed_widths(kind: u32, p: Seq<u8>)
    ensures
        kind == 1 || kind == 6 || kind == 16 ==> (packed_numbers(kind, p) is Some <==> p.len() % 8
            == 0),
        kind == 2 || kind == 7 || kind == 15 ==> (packed_numbers(kind, p) is Some <==> p.len() % 4
            == 0),
{
    if is_fixed64_kind(kind) {
        lemma_packed_width(kind, p, 8);
    }
    if is_fixed32_kind(kind) {
        lemma_packed_width(kind, p, 4);
    }
}

proof fn lemma_packed_width(kind: u32, p: Seq<u8>, width: nat)
    requires
        width == 8 && is_fixed64_kind(kind) || width == 4 && is_fixed32_kind(kind),
    ensures
        packed_numbers(kind, p) is Some <==> p.len() % width == 0,
    decreases p.len(),
{
    if p.len() >= width {
        let rest = p.skip(width as int);
        let first = front_number(kind, p);
        lemma_packed_width(kind, rest, width);
        assert((first matches Some((v, n)) && n == width));
        assert(packed_numbers(kind, p) is Some <==> packed_numbers(kind, rest) is Some);
        assert(rest.len() % width == p.len() % width) by {
            vstd::arithmetic::div_mod::lemma_mod_add_multiples_vanish(
                rest.len() as int,
                width as int,
            );
        }
    } else if p.len() > 0 {
        assert(front_number(kind, p) is None);
        assert(p.len() % width == p.len()) by {
            vstd::arithmetic::div_mod::lemma_small_mod(p.len(), width);
        }
    }
}

/// Whether a value is sent as the type of a field asks: texts well-formed, varints
/// and numbers of eight and four bytes in that form or, where the field is
/// repeated, packed, and messages with a body that holds to their own type.
pub open spec fn sent_as_declared(
    index: IndexView,
    d: FieldModel,
    value: ValueView,
    depth: nat,
) -> bool {
    &&& d.kind == 9 ==> (value matches ValueView::Bytes(p) && valid_utf8(p))
    &&& d.kind == 12 ==> value is Bytes
    &&& d.kind == 3 || d.kind == 4 || d.kind == 5 || d.kind == 8 || d.kind == 13 || d.kind == 14
        || d.kind == 17 || d.kind == 18 ==> value is Varint || (value matches ValueView::Bytes(p)
        && d.label == 3 && packed_numbers(d.kind, p) is Some)
    &&& d.kind == 1 || d.kind == 6 || d.kind == 16 ==> value is Fixed64 || (
    value matches ValueView::Bytes(p) && d.label == 3 && p.len() % 8 == 0)
    &&& d.kind == 2 || d.kind == 7 || d.kind == 15 ==> value is Fixed32 || (
    value matches ValueView::Bytes(p) && d.label == 3 && p.len() % 4 == 0)
    &&& d.kind == 11 ==> (value matches ValueView::Bytes(p) && index.contains_key(d.message_type)
        && (read_fields(p, maps_of(index, d.message_type), (depth - 1) as nat) matches Some(fs)
        && typed(index, d.message_type, fs, (depth - 1) as nat)))
}

/// A body holds to its message type exactly where every field that the type
/// declares is sent as declared. Fields that it does not declare are no reason
/// to refuse it.
pub proof fn law_body_holds_to_its_type_exactly(
    index: IndexView,
    message: Seq<char>,
    fields: Seq<FieldView>,
    depth: nat,
)
    requires
        depth > 0,
    ensures
        typed(index, message, fields, depth) <==> forall|i: int|
            0 <= i < fields.len() ==> (field_numbered(
                fields_of(index, message),
                (#[trigger] fields[i]).number,
            ) matches Some(d) ==> sent_as_declared(index, d, fields[i].value, depth)),
    decreases fields.len(),
{
    if fields.len() > 0 {
        let front = fields.drop_last();
        let last = fields.last();
        law_body_holds_to_its_type_exactly(index, message, front, depth);
        if let Some(d) = field_numbered(fields_of(index, message), last.number) {
            if let ValueView::Bytes(p) = last.value {
                law_packed_widths(d.kind, p);
            }
        }
        assert(typed_field(index, message, last, depth) <==> (field_numbered(
            fields_of(index, message),
            last.number,
        ) matches Some(d) ==> sent_as_declared(index, d, last.value, depth)));
        if typed(index, message, fields, depth) {
            assert forall|i: int| 0 <= i < fields.len() implies (field_numbered(
                fields_of(index, message),
                (#[trigger] fields[i]).number,
            ) matches Some(d) ==> sent_as_declared(index, d, fields[i].value, depth)) by {
                if i < front.len() {
                    assert(front[i] == fields[i]);
                }
            }
        }
        if forall|i: int|
            0 <= i < fields.len() ==> (field_numbered(
                fields_of(index, message),
                (#[trigger] fields[i]).number,
            ) matches Some(d) ==> sent_as_declared(index, d, fields[i].value, depth)) {
            assert forall|i: int| 0 <= i < front.len() implies (field_numbered(
                fields_of(index, message),
                (#[trigger] front[i]).number,
            ) matches Some(d) ==> sent_as_declared(index, d, front[i].value, depth)) by {
                assert(front[i] == fields[i]);
            }
            assert(fields[fields.len() - 1] == last);
        }
    }
}

/// A body is decoded exactly where the schema has its message type, it is
/// well-formed, and it holds to the type; its JSON form then has the members of
/// all fields of the type.
pub proof fn law_body_is_decoded_exactly(s: SchemaView, message: Seq<char>, raw: Seq<u8>)
    ensures
        decoded_members(s, message, raw) is Some <==> s.index.contains_key(message) && (
        read_fields(raw, maps_of(s.index, message), 100) matches Some(fields) && typed(
            s.index,
            message,
            fields,
            100,
        )),
        decoded_members(s, message, raw) matches Some(list) ==> list == members(
            s,
            message,
            read_fields(raw, maps_of(s.index, message), 100)->0,
            100,
            s.index[message].fields.len(),
        ),
{
}

proof fn lemma_numbers_of_own_fields(kind: u32, fields: Seq<FieldView>, number: u32)
    ensures
        last_number(kind, fields, number) == last_number(kind, numbered(fields, number), number),
        all_numbers(kind, fields, number) == all_numbers(kind, numbered(fields, number), number),
    decreases fields.len(),
{
    if fields.len() == 0 {
        law_numbered_fields(fields, FieldView { number, value: ValueView::Group }, number);
        assert(fields =~= Seq::<FieldView>::empty());
    } else {
        let front = fields.drop_last();
        let last = fields.last();
        assert(front.push(last) =~= fields);
        law_numbered_fields(front, last, number);
        lemma_numbers_of_own_fields(kind, front, number);
        if last.number == number {
            assert(numbered(fields, number).drop_last() =~= numbered(front, number));
        }
    }
}

/// The JSON form of a field depends on what was sent under its own number alone.
pub proof fn law_fields_are_independent(
    s: SchemaView,
    message: Seq<char>,
    field: FieldModel,
    fields: Seq<FieldView>,
    depth: nat,
)
    ensures
        field_json(s, message, field, fields, depth) == field_json(
            s,
            message,
            field,
            numbered(fields, field.number),
            depth,
        ),
        contribution(s, message, field, fields, depth) == contribution(
            s,
            message,
            field,
            numbered(fields, field.number),
            depth,
        ),
{
    let own = numbered(fields, field.number);
    law_numbers_are_independent(fields, field.number);
    lemma_numbers_of_own_fields(field.kind, fields, field.number);
    assert(repeated_json(s, field, fields, depth) == repeated_json(s, field, own, depth));
    assert(value_json(s, field, fields, depth) == value_json(s, field, own, depth));
}

/// A field that was not sent is not shown, unless something stands for it.
pub proof fn law_what_was_not_sent_is_not_shown(
    s: SchemaView,
    message: Seq<char>,
    field: FieldModel,
    fields: Seq<FieldView>,
    depth: nat,
)
    requires
        forall|k: int| 0 <= k < fields.len() ==> (#[trigger] fields[k]).number != field.number,
        presence_of(message, field.name) == Presence::AsSent,
    ensures
        field_json(s, message, field, fields, depth) is None,
        contribution(s, message, field, fields, depth).len() == 0,
{
    law_absent_field_gives_nothing(fields, field.number);
    lemma_no_numbers(field.kind, fields, field.number);
    assert(repeated_json(s, field, fields, depth) is None);
    assert(value_json(s, field, fields, depth) is None);
}

proof fn lemma_no_numbers(kind: u32, fields: Seq<FieldView>, number: u32)
    requires
        forall|k: int| 0 <= k < fields.len() ==> (#[trigger] fields[k]).number != number,
    ensures
        last_number(kind, fields, number) is None,
        all_numbers(kind, fields, number).len() == 0,
    decreases fields.len(),
{
    if fields.len() > 0 {
        let front = fields.drop_last();
        assert(fields[fields.len() - 1].number != number);
        assert forall|k: int| 0 <= k < front.len() implies (#[trigger] front[k]).number
            != number by {
            assert(front[k] == fields[k]);
        }
        lemma_no_numbers(kind, front, number);
    }
}

/// The last number that was sent counts, and of a repeated field all do, in
/// order.
pub proof fn law_sent_numbers_are_picked(
    kind: u32,
    fields: Seq<FieldView>,
    last: FieldView,
    v: u64,
)
    requires
        single_number(kind, last.value) == Some(v),
    ensures
        last_number(kind, fields.push(last), last.number) == Some(v),
        all_numbers(kind, fields.push(last), last.number) == all_numbers(
            kind,
            fields,
            last.number,
        ).push(v),
{
    assert(fields.push(last).drop_last() =~= fields);
}

/// Which values carry a number of a kind on their own: varints the kinds that are
/// sent as such, eight and four bytes the kinds of those widths.
pub proof fn law_carried_numbers(kind: u32, v: u64, w: u32)
    ensures
        kind == 3 || kind == 4 || kind == 5 || kind == 8 || kind == 13 || kind == 14 || kind == 17
            || kind == 18 ==> single_number(kind, ValueView::Varint(v)) == Some(v),
        kind == 1 || kind == 6 || kind == 16 ==> single_number(kind, ValueView::Fixed64(v))
            == Some(v),
        kind == 2 || kind == 7 || kind == 15 ==> single_number(kind, ValueView::Fixed32(w))
            == Some(w as u64),
{
}

proof fn lemma_elements(
    s: SchemaView,
    message: Seq<char>,
    payloads: Seq<Seq<u8>>,
    depth: nat,
    n: nat,
    i: int,
)
    requires
        depth > 0,
        0 <= i < n <= payloads.len(),
    ensures
        elements(s, message, payloads, depth, n).len() == n,
        elements(s, message, payloads, depth, n)[i] == message_json(
            s,
            message,
            fields_in(payloads[i], maps_of(s.index, message), (depth - 1) as nat),
            (depth - 1) as nat,
        ),
    decreases n,
{
    if n == 1 {
        assert(elements(s, message, payloads, depth, 0).len() == 0);
    } else if i < n - 1 {
        lemma_elements(s, message, payloads, depth, (n - 1) as nat, i);
    } else {
        lemma_elements(s, message, payloads, depth, (n - 1) as nat, 0);
    }
}

/// A message field that was sent is shown as the message: merged where it holds
/// one, and as an array with every message in order where it is repeated.
pub proof fn law_messages_are_shown_as_sent(
    s: SchemaView,
    message: Seq<char>,
    field: FieldModel,
    fields: Seq<FieldView>,
    depth: nat,
    i: int,
)
    requires
        depth > 0,
        field.kind == 11,
        presence_of(message, field.name) == Presence::AsSent,
        0 <= i < all_bytes(fields, field.number).len(),
    ensures
        ({
            let payloads = all_bytes(fields, field.number);
            let inner = field.message_type;
            let below = (depth - 1) as nat;
            let shown = field_json(s, message, field, fields, depth);
            &&& field.label != 3 ==> shown == Some(
                message_json(
                    s,
                    inner,
                    merged_fields(payloads, maps_of(s.index, inner), below),
                    below,
                ),
            )
            &&& field.label == 3 && !(s.index.contains_key(inner) && s.index[inner].map_entry) ==> (
            shown matches Some(JsonView::Array(items)) && items.len() == payloads.len() && items[i]
                == message_json(
                s,
                inner,
                fields_in(payloads[i], maps_of(s.index, inner), below),
                below,
            ))
        }),
{
    let payloads = all_bytes(fields, field.number);
    lemma_elements(s, field.message_type, payloads, depth, payloads.len(), i);
    if field.label == 3 && !is_map(s.index, field) {
        assert(repeated_json(s, field, fields, depth) == Some(
            JsonView::Array(
                elements(s, field.message_type, payloads, depth, payloads.len()),
            ),
        ));
    } else if field.label != 3 {
        assert(value_json(s, field, fields, depth) is Some);
    }
}

/// A map is shown as an object in which each key has the value of the last entry
/// that was sent with it.
pub proof fn law_maps_are_shown_as_sent(
    s: SchemaView,
    message: Seq<char>,
    field: FieldModel,
    fields: Seq<FieldView>,
    depth: nat,
    i: int,
)
    requires
        depth > 0,
        field.kind == 11,
        field.label == 3,
        s.index.contains_key(field.message_type),
        s.index[field.message_type].map_entry,
        presence_of(message, field.name) == Presence::AsSent,
        0 <= i < all_bytes(fields, field.number).len(),
        forall|k: int|
            i < k < all_bytes(fields, field.number).len() ==> #[trigger] entry_key(
                s,
                field.message_type,
                all_bytes(fields, field.number)[k],
                depth,
            ) != entry_key(
                s,
                field.message_type,
                all_bytes(fields, field.number)[i],
                depth,
            ),
    ensures
        field_json(s, message, field, fields, depth) matches Some(JsonView::Object(list)) && lookup(
            list,
            entry_key(s, field.message_type, all_bytes(fields, field.number)[i], depth),
        ) == Some(
            entry_value(
                s,
                field.message_type,
                fields_in(
                    all_bytes(fields, field.number)[i],
                    maps_of(s.index, field.message_type),
                    (depth - 1) as nat,
                ),
                (depth - 1) as nat,
            ),
        ),
{
    let payloads = all_bytes(fields, field.number);
    lemma_entries(s, field.message_type, payloads, depth, payloads.len(), i);
    assert(repeated_json(s, field, fields, depth) == Some(
        JsonView::Object(entries(s, field.message_type, payloads, depth, payloads.len())),
    ));
}

/// The key of a map entry: the text of its field 1.
pub open spec fn entry_key(
    s: SchemaView,
    entry: Seq<char>,
    payload: Seq<u8>,
    depth: nat,
) -> Seq<char> {
    text_at(fields_in(payload, maps_of(s.index, entry), (depth - 1) as nat), 1)
}

proof fn lemma_entries(
    s: SchemaView,
    entry: Seq<char>,
    payloads: Seq<Seq<u8>>,
    depth: nat,
    n: nat,
    i: int,
)
    requires
        depth > 0,
        0 <= i < n <= payloads.len(),
        forall|k: int|
            i < k < n ==> #[trigger] entry_key(s, entry, payloads[k], depth) != entry_key(
                s,
                entry,
                payloads[i],
                depth,
            ),
    ensures
        lookup(
            entries(s, entry, payloads, depth, n),
            entry_key(s, entry, payloads[i], depth),
        ) == Some(
            entry_value(
                s,
                entry,
                fields_in(payloads[i], maps_of(s.index, entry), (depth - 1) as nat),
                (depth - 1) as nat,
            ),
        ),
    decreases n,
{
    let below = (depth - 1) as nat;
    let before = entries(s, entry, payloads, depth, (n - 1) as nat);
    let last = fields_in(payloads[n - 1], maps_of(s.index, entry), below);
    let name = entry_key(s, entry, payloads[n - 1], depth);
    let value = entry_value(s, entry, last, below);
    assert(entries(s, entry, payloads, depth, n) == set_member(before, name, value));
    if i == n - 1 {
        law_set_then_lookup(before, name, value);
    } else {
        let key = entry_key(s, entry, payloads[i], depth);
        assert(entry_key(s, entry, payloads[n - 1], depth) != key);
        lemma_entries(s, entry, payloads, depth, (n - 1) as nat, i);
        law_set_keeps_others(before, name, value, key);
    }
}

/// The value of a map entry is what was sent in field 2, or, where nothing was,
/// the empty text, zero or the message without fields.
pub proof fn law_map_values(
    s: SchemaView,
    entry: Seq<char>,
    value: FieldModel,
    fields: Seq<FieldView>,
    depth: nat,
)
    requires
        depth > 0,
        field_numbered(fields_of(s.index, entry), 2) == Some(value),
    ensures
        last_bytes(fields, 2) is Some && value.kind == 9 ==> entry_value(
            s,
            entry,
            fields,
            depth,
        ) == JsonView::Str(plain_text(last_bytes(fields, 2)->0)),
        last_bytes(fields, 2) is Some && value.kind == 12 ==> entry_value(s, entry, fields, depth)
            == JsonView::Str(base64_text(last_bytes(fields, 2)->0)),
        all_bytes(fields, 2).len() > 0 && value.kind == 11 ==> entry_value(s, entry, fields, depth)
            == message_json(
            s,
            value.message_type,
            merged_fields(
                all_bytes(fields, 2),
                maps_of(s.index, value.message_type),
                (depth - 1) as nat,
            ),
            (depth - 1) as nat,
        ),
        (forall|k: int| 0 <= k < fields.len() ==> (#[trigger] fields[k]).number != 2) ==> {
            let shown = entry_value(s, entry, fields, depth);
            &&& value.kind == 9 || value.kind == 12 ==> shown == JsonView::Str(Seq::empty())
            &&& value.kind == 3 || value.kind == 5 || value.kind == 13 || value.kind == 4 ==> shown
                == JsonView::Int(0)
            &&& value.kind == 8 ==> shown == JsonView::Bool(false)
            &&& value.kind == 11 ==> shown == message_json(
                s,
                value.message_type,
                Seq::empty(),
                (depth - 1) as nat,
            )
        },
{
    lemma_declared_number(fields_of(s.index, entry), 2);
    if forall|k: int| 0 <= k < fields.len() ==> (#[trigger] fields[k]).number != 2 {
        law_absent_field_gives_nothing(fields, 2);
        lemma_no_numbers(value.kind, fields, 2);
        assert(value_json(s, value, fields, depth) is None);
    }
}

proof fn lemma_declared_number(fields: Seq<FieldModel>, number: u32)
    ensures
        field_numbered(fields, number) matches Some(f) ==> f.number == number,
    decreases fields.len(),
{
    if fields.len() > 0 {
        lemma_declared_number(fields.skip(1), number);
    }
}

/// The members of an inline embed that was sent are those of the message it
/// holds, and no others; what is left out gives none.
pub proof fn law_inline_embeds_give_their_members(
    s: SchemaView,
    message: Seq<char>,
    field: FieldModel,
    fields: Seq<FieldView>,
    depth: nat,
)
    requires
        depth > 0,
    ensures
        s.exceptions.is_excluded(message, field.name) ==> contribution(
            s,
            message,
            field,
            fields,
            depth,
        ).len() == 0,
        !s.exceptions.is_excluded(message, field.name) && s.exceptions.is_inline_embed(
            message,
            field.name,
        ) && field.kind == 11 && all_bytes(fields, field.number).len() > 0 ==> contribution(
            s,
            message,
            field,
            fields,
            depth,
        ) == members(
            s,
            field.message_type,
            merged_fields(
                all_bytes(fields, field.number),
                maps_of(s.index, field.message_type),
                (depth - 1) as nat,
            ),
            (depth - 1) as nat,
            fields_of(s.index, field.message_type).len(),
        ),
{
}

/// A message is shown as the object of its members, unless its type is one of
/// the seven with a JSON form of a single value.
pub proof fn law_messages_are_objects(
    s: SchemaView,
    message: Seq<char>,
    fields: Seq<FieldView>,
    depth: nat,
)
    requires
        !kubernetes_exceptions().is_opaque(message),
    ensures
        message_json(s, message, fields, depth) == JsonView::Object(
            members(s, message, fields, depth, fields_of(s.index, message).len()),
        ),
{
    law_opaque_types_are_single_values(message, fields);
}

/// Instants, quantities, numbers that may be texts and embedded JSON are shown as
/// single values, from the fields that they carry.
pub proof fn law_single_values(fields: Seq<FieldView>, seconds: u64, nanos: u64, p: Seq<u8>)
    ensures
        last_varint(fields, 1) == Some(seconds) ==> single_value(
            ".k8s.io.apimachinery.pkg.apis.meta.v1.Time"@,
            fields,
        ) == Some(JsonView::Str(rfc3339(signed64(seconds)))),
        last_varint(fields, 1) == Some(seconds) && last_varint(fields, 2) == Some(nanos)
            ==> single_value(".k8s.io.apimachinery.pkg.apis.meta.v1.MicroTime"@, fields) == Some(
            JsonView::Str(rfc3339_micro(signed64(seconds), signed32(nanos))),
        ),
        last_bytes(fields, 1) == Some(p) ==> single_value(
            ".k8s.io.apimachinery.pkg.api.resource.Quantity"@,
            fields,
        ) == Some(JsonView::Str(plain_text(p))),
        (last_varint(fields, 1) is None || last_varint(fields, 1) == Some(0u64)) && last_varint(
            fields,
            2,
        ) == Some(nanos) ==> single_value(
            ".k8s.io.apimachinery.pkg.util.intstr.IntOrString"@,
            fields,
        ) == Some(JsonView::Int(signed32(nanos))),
        last_varint(fields, 1) == Some(1u64) && last_bytes(fields, 3) == Some(p) ==> single_value(
            ".k8s.io.apimachinery.pkg.util.intstr.IntOrString"@,
            fields,
        ) == Some(JsonView::Str(plain_text(p))),
        last_bytes(fields, 1) == Some(p) && plain_text(p).len() > 0 ==> {
            let shown = Some(JsonView::Raw(plain_text(p)));
            &&& single_value(".k8s.io.apimachinery.pkg.runtime.RawExtension"@, fields) == shown
            &&& single_value(".k8s.io.apimachinery.pkg.apis.meta.v1.FieldsV1"@, fields) == shown
            &&& single_value(
                ".k8s.io.apiextensions_apiserver.pkg.apis.apiextensions.v1.JSON"@,
                fields,
            ) == shown
        },
{
    lemma_single_names();
}

proof fn lemma_single_names()
    ensures
        ".k8s.io.apimachinery.pkg.apis.meta.v1.Time"@.len() == 42,
        ".k8s.io.apimachinery.pkg.apis.meta.v1.MicroTime"@.len() == 47,
        ".k8s.io.apimachinery.pkg.api.resource.Quantity"@.len() == 46,
        ".k8s.io.apimachinery.pkg.util.intstr.IntOrString"@.len() == 48,
        ".k8s.io.apimachinery.pkg.runtime.RawExtension"@.len() == 45,
        ".k8s.io.apimachinery.pkg.apis.meta.v1.FieldsV1"@.len() == 46,
        ".k8s.io.apiextensions_apiserver.pkg.apis.apiextensions.v1.JSON"@.len() == 62,
        ".k8s.io.apimachinery.pkg.apis.meta.v1.FieldsV1"@
            != ".k8s.io.apimachinery.pkg.api.resource.Quantity"@,
{
    reveal_strlit(".k8s.io.apimachinery.pkg.apis.meta.v1.Time");
    reveal_strlit(".k8s.io.apimachinery.pkg.apis.meta.v1.MicroTime");
    reveal_strlit(".k8s.io.apimachinery.pkg.api.resource.Quantity");
    reveal_strlit(".k8s.io.apimachinery.pkg.util.intstr.IntOrString");
    reveal_strlit(".k8s.io.apimachinery.pkg.runtime.RawExtension");
    reveal_strlit(".k8s.io.apimachinery.pkg.apis.meta.v1.FieldsV1");
    reveal_strlit(".k8s.io.apiextensions_apiserver.pkg.apis.apiextensions.v1.JSON");
    assert(".k8s.io.apimachinery.pkg.apis.meta.v1.FieldsV1"@[28]
        != ".k8s.io.apimachinery.pkg.api.resource.Quantity"@[28]);
}

/// No field is forgotten: in the Kubernetes API every field of a message type
/// that is no inline embed gives its JSON form under its key.
pub proof fn law_no_field_is_dropped(
    s: SchemaView,
    message: Seq<char>,
    field: FieldModel,
    fields: Seq<FieldView>,
    depth: nat,
)
    requires
        s.exceptions == kubernetes_exceptions(),
        !kubernetes_exceptions().is_inline_embed(message, field.name),
    ensures
        lookup(
            contribution(s, message, field, fields, depth),
            kubernetes_exceptions().json_key(message, field),
        ) == field_json(s, message, field, fields, depth),
{
    law_kubernetes_leaves_nothing_out(message, field.name);
    law_every_field_has_its_member(s, message, field, fields, depth);
}

/// Defaults stand in for what was not sent and change nothing else: a field is
/// shown as in a type without defaults, except that what was not sent has its
/// default, zero is replaced where the default is a number, and an empty or zero
/// quantity where it is one.
pub proof fn law_defaults_stand_in_for_absent_fields(
    s: SchemaView,
    message: Seq<char>,
    other: Seq<char>,
    field: FieldModel,
    fields: Seq<FieldView>,
    depth: nat,
)
    requires
        depth > 0,
        presence_of(other, field.name) == Presence::AsSent,
    ensures
        ({
            let plain = field_json(s, other, field, fields, depth);
            let shown = field_json(s, message, field, fields, depth);
            &&& plain matches Some(v) ==> {
                ||| shown == plain
                ||| v == JsonView::Int(0) && presence_of(message, field.name) is Int
                ||| (v == JsonView::Str(Seq::empty()) || v == JsonView::Str("0"@)) && presence_of(
                    message,
                    field.name,
                ) == Presence::UnitQuantity
            }
            &&& plain is None ==> shown == match presence_of(message, field.name) {
                Presence::AsSent => None,
                Presence::Null => Some(JsonView::Null),
                Presence::EmptyArray => Some(JsonView::Array(Seq::empty())),
                Presence::EmptyMessage => Some(
                    message_json(s, field.message_type, Seq::empty(), (depth - 1) as nat),
                ),
                Presence::Int(n) => Some(JsonView::Int(n as int)),
                Presence::UnitQuantity => Some(JsonView::Str("1"@)),
            }
        }),
{
}

/// A field that is no inline embed gives at most one member, under its own key.
pub proof fn law_a_field_gives_no_other_member(
    s: SchemaView,
    message: Seq<char>,
    field: FieldModel,
    fields: Seq<FieldView>,
    depth: nat,
    name: Seq<char>,
)
    requires
        !s.exceptions.is_inline_embed(message, field.name),
        name != s.exceptions.json_key(message, field),
    ensures
        lookup(contribution(s, message, field, fields, depth), name) is None,
        contribution(s, message, field, fields, depth).len() <= 1,
{
    let given = contribution(s, message, field, fields, depth);
    if given.len() > 0 {
        assert(given.drop_last() =~= Seq::empty());
        assert(member_index(Seq::<(Seq<char>, JsonView)>::empty(), name) == -1);
    }
}

/// The map fields of a message type are its message fields whose type is marked
/// as that of map entries.
pub proof fn law_map_fields(index: IndexView, message: Seq<char>, number: u32)
    requires
        index.contains_key(message),
    ensures
        maps_of(index, message).contains(number) <==> exists|j: int|
            0 <= j < index[message].fields.len() && {
                let f = #[trigger] index[message].fields[j];
                &&& f.number == number
                &&& f.kind == 11
                &&& index.contains_key(f.message_type)
                &&& index[f.message_type].map_entry
            },
{
    let fields = index[message].fields;
    lemma_map_numbers(index, fields, fields.len(), number);
    if maps_of(index, message).contains(number) {
        let j = choose|j: int|
            0 <= j < fields.len() && (#[trigger] fields[j]).number == number && is_map(
                index,
                fields[j],
            );
        assert(index[message].fields[j].number == number);
    }
}

proof fn lemma_map_numbers(index: IndexView, fields: Seq<FieldModel>, n: nat, number: u32)
    requires
        n <= fields.len(),
    ensures
        map_numbers(index, fields, n).contains(number) <==> exists|j: int|
            0 <= j < n && (#[trigger] fields[j]).number == number && is_map(index, fields[j]),
    decreases n,
{
    if n > 0 {
        let before = map_numbers(index, fields, (n - 1) as nat);
        let last = fields[n - 1];
        lemma_map_numbers(index, fields, (n - 1) as nat, number);
        if is_map(index, last) {
            let all = before.push(last.number);
            if before.contains(number) {
                let k = before.index_of(number);
                assert(all[k] == number);
            }
            if last.number == number {
                assert(all[all.len() - 1] == number);
            }
            if all.contains(number) && last.number != number {
                let k = all.index_of(number);
                assert(before[k] == number);
            }
        }
    }
}

/// Single values of which nothing was sent: instants and embedded JSON are
/// `null`, a quantity is "0" and a number that may be a text is 0.
pub proof fn law_single_values_without_fields()
    ensures
        ({
            let none = Seq::<FieldView>::empty();
            &&& single_value(".k8s.io.apimachinery.pkg.apis.meta.v1.Time"@, none) == Some(
                JsonView::Null,
            )
            &&& single_value(".k8s.io.apimachinery.pkg.apis.meta.v1.MicroTime"@, none) == Some(
                JsonView::Null,
            )
            &&& single_value(".k8s.io.apimachinery.pkg.api.resource.Quantity"@, none) == Some(
                JsonView::Str("0"@),
            )
            &&& single_value(".k8s.io.apimachinery.pkg.util.intstr.IntOrString"@, none) == Some(
                JsonView::Int(0),
            )
            &&& single_value(".k8s.io.apimachinery.pkg.runtime.RawExtension"@, none) == Some(
                JsonView::Null,
            )
            &&& single_value(".k8s.io.apimachinery.pkg.apis.meta.v1.FieldsV1"@, none) == Some(
                JsonView::Null,
            )
            &&& single_value(
                ".k8s.io.apiextensions_apiserver.pkg.apis.apiextensions.v1.JSON"@,
                none,
            ) == Some(JsonView::Null)
        }),
{
    lemma_single_names();
    assert(last_varint(Seq::<FieldView>::empty(), 1) is None);
    assert(last_bytes(Seq::<FieldView>::empty(), 1) is None);
}

/// The numbers in a packed payload are those of its varints, or of its groups of
/// eight or four bytes, in order, and a repeated field has them after those sent
/// before.
pub proof fn law_packed_numbers(kind: u32, v: u64, rest: Seq<u8>)
    requires
        kind == 3 || kind == 4 || kind == 5 || kind == 8 || kind == 13 || kind == 14 || kind == 17
            || kind == 18,
    ensures
        packed_numbers(kind, Seq::empty()) == Some(Seq::<u64>::empty()),
        packed_numbers(kind, crate::wire::varint_bytes(v as nat) + rest) == match packed_numbers(
            kind,
            rest,
        ) {
            None => None,
            Some(vs) => Some(seq![v] + vs),
        },
{
    let head = crate::wire::varint_bytes(v as nat);
    crate::wire::law_varint_round_trip(v, rest);
    crate::wire::law_varint_length(v);
    assert((head + rest).skip(head.len() as int) =~= rest);
}

/// A packed payload adds its numbers to those of the field, and counts for it
/// alone.
pub proof fn law_packed_payloads_are_picked(
    kind: u32,
    fields: Seq<FieldView>,
    p: Seq<u8>,
    number: u32,
    vs: Seq<u64>,
)
    requires
        packed_numbers(kind, p) == Some(vs),
    ensures
        all_numbers(
            kind,
            fields.push(FieldView { number, value: ValueView::Bytes(p) }),
            number,
        ) == all_numbers(kind, fields, number) + vs,
{
    assert(fields.push(FieldView { number, value: ValueView::Bytes(p) }).drop_last() =~= fields);
}

/// Signed numbers of 64 and 32 bits come back from the bits that stand for them.
pub proof fn law_signed_numbers(i: int)
    ensures
        -0x8000_0000_0000_0000 <= i <= 0x7fff_ffff_ffff_ffff ==> signed64(
            (i % 0x1_0000_0000_0000_0000) as u64,
        ) == i,
        -0x8000_0000 <= i <= 0x7fff_ffff ==> signed32((i % 0x1_0000_0000_0000_0000) as u64) == i,
{
    if -0x8000_0000_0000_0000 <= i < 0 {
        assert(i % 0x1_0000_0000_0000_0000 == i + 0x1_0000_0000_0000_0000);
    }
    if -0x8000_0000 <= i < 0 {
        assert((i + 0x1_0000_0000_0000_0000) % 0x1_0000_0000 == i + 0x1_0000_0000);
    }
}

/// The text under a number is the last one that was sent, whatever its
/// characters, and empty where none was.
pub proof fn law_texts_are_picked(fields: Seq<FieldView>, number: u32, text: Seq<char>)
    ensures
        last_bytes(fields, number) == Some(vstd::utf8::encode_utf8(text)) ==> text_at(
            fields,
            number,
        ) == text,
        last_bytes(fields, number) is None ==> text_at(fields, number) == Seq::<char>::empty(),
{
    crate::envelope::lemma_text_round_trip(text);
}

} // verus!

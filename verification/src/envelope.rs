//! The envelope around a Kubernetes protobuf body: four magic bytes and an
//! `Unknown` message that names the object's type and carries its bytes.
use crate::fields::{
    all_bytes, find_last_bytes, last_bytes, law_absent_field_gives_nothing,
    last_numbered, law_last_field_counts, law_ld_field_prefix, lemma_last_numbered, merged_fields,
    read_fields, split_fields, FieldView, ValueView,
};
use crate::layout::{
    check_fields, embeds, is_text, law_unknown_layout, read_message, read_text, text_of, well_laid,
    well_laid_field, Layout,
};
use crate::text::bytes_eq;
use crate::wire::{encode_ld_field, ld_field, push_bytes, RECURSION_LIMIT};
use vstd::prelude::*;
use vstd::slice::{slice_subrange, slice_to_vec};
use vstd::utf8::{decode_utf8, encode_utf8, valid_utf8};

verus! {

/// The largest `Unknown` message that is decoded, in bytes.
pub const MAX_PROTO_ENVELOPE_BYTES: usize = 16_777_216;

/// The four bytes that every Kubernetes protobuf body starts with.
pub open spec fn magic() -> Seq<u8> {
    seq![0x6bu8, 0x38u8, 0x73u8, 0x00u8]
}

/// The four bytes that every Kubernetes protobuf body starts with.
pub fn k8s_proto_magic() -> (r: [u8; 4])
    ensures
        r@ == magic(),
{
    let r: [u8; 4] = [0x6b, 0x38, 0x73, 0x00];
    assert(r@ =~= magic());
    r
}

/// `serde_json::Value`.
#[verifier::external_type_specification]
#[verifier::external_body]
pub struct ExValue(serde_json::Value);

/// `bytes::Bytes`.
#[verifier::external_type_specification]
#[verifier::external_body]
pub struct ExBytes(bytes::Bytes);

/// The members of a `serde_json::Value` that is an object, each with its text
/// where it is a string; no members for any other value.
pub uninterp spec fn value_members(v: serde_json::Value) -> Map<Seq<char>, Option<Seq<char>>>;

/// The compact JSON text of a `serde_json::Value`.
pub uninterp spec fn value_text(v: serde_json::Value) -> Seq<char>;

/// The bytes that a `bytes::Bytes` holds.
pub uninterp spec fn bytes_contents(b: bytes::Bytes) -> Seq<u8>;

/// `serde_json::Value`'s index by name followed by `Value::as_str`: the text of
/// the member, `None` where there is no such member or it is not a string.
#[verifier::external_body]
fn member_str<'a>(val: &'a serde_json::Value, name: &str) -> (r: Option<&'a str>)
    ensures
        match r {
            Some(s) => value_members(*val).contains_pair(name@, Some(s@)),
            None => !value_members(*val).contains_key(name@) || value_members(*val)[name@] is None,
        },
{
    val[name].as_str()
}

/// `ToString::to_string` of a `serde_json::Value`: its JSON text, which is
/// never empty.
#[verifier::external_body]
fn value_to_string(val: &serde_json::Value) -> (r: String)
    ensures
        r@ == value_text(*val),
        r@.len() > 0,
{
    val.to_string()
}

/// `bytes::Bytes::from` of a vector: the same bytes.
#[verifier::external_body]
fn bytes_from(v: Vec<u8>) -> (r: bytes::Bytes)
    ensures
        bytes_contents(r) == v@,
{
    bytes::Bytes::from(v)
}

/// The text of a member of a JSON object; empty where there is no such member
/// or it is not a string.
pub open spec fn member_text(v: serde_json::Value, name: Seq<char>) -> Seq<char> {
    if value_members(v).contains_key(name) {
        match value_members(v)[name] {
            Some(s) => s,
            None => Seq::empty(),
        }
    } else {
        Seq::empty()
    }
}

/// The `TypeMeta` message of an object.
pub open spec fn type_meta_bytes(api_version: Seq<u8>, kind: Seq<u8>) -> Seq<u8> {
    ld_field(1, api_version) + ld_field(2, kind)
}

/// The `Unknown` message of an object: its type in field 1, its bytes in field
/// 2, their content type in field 4.
pub open spec fn unknown_bytes(
    api_version: Seq<u8>,
    kind: Seq<u8>,
    raw: Seq<u8>,
    content_type: Seq<u8>,
) -> Seq<u8> {
    ld_field(1, type_meta_bytes(api_version, kind)) + ld_field(2, raw) + ld_field(4, content_type)
}

/// The text "application/json".
pub open spec fn json_content_type() -> Seq<char> {
    "application/json"@
}

/// The whole body for an object that is sent as JSON.
pub open spec fn response_bytes(
    api_version: Seq<char>,
    kind: Seq<char>,
    json: Seq<char>,
) -> Seq<u8> {
    magic() + unknown_bytes(
        encode_utf8(api_version),
        encode_utf8(kind),
        encode_utf8(json),
        encode_utf8(json_content_type()),
    )
}

/// Encodes the body for an object of a given type and JSON text.
pub fn encode_response(api_version: &str, kind: &str, json: &str) -> (out: Vec<u8>)
    ensures
        out@ == response_bytes(api_version@, kind@, json@),
{
    let mut type_meta = encode_ld_field(1, api_version.as_bytes());
    let second = encode_ld_field(2, kind.as_bytes());
    push_bytes(&mut type_meta, second.as_slice());

    let mut envelope = encode_ld_field(1, type_meta.as_slice());
    let raw = encode_ld_field(2, json.as_bytes());
    push_bytes(&mut envelope, raw.as_slice());
    let content_type = encode_ld_field(4, "application/json".as_bytes());
    push_bytes(&mut envelope, content_type.as_slice());

    let mut out: Vec<u8> = Vec::new();
    let prefix = k8s_proto_magic();
    push_bytes(&mut out, &prefix);
    push_bytes(&mut out, envelope.as_slice());
    assert(out@ =~= response_bytes(api_version@, kind@, json@));
    out
}

/// Encodes a JSON object as a Kubernetes protobuf body. The body carries the
/// object as JSON text, with content type "application/json", so that one
/// encoding serves objects of every type.
pub fn encode_proto_response(val: &serde_json::Value) -> (r: bytes::Bytes)
    ensures
        bytes_contents(r) == response_bytes(
            member_text(*val, "apiVersion"@),
            member_text(*val, "kind"@),
            value_text(*val),
        ),
        value_text(*val).len() > 0,
        bytes_contents(r).len() <= 4 + 16_777_216 ==> (read_envelope(
            bytes_contents(r),
        ) matches Some(e) && response_names(*val, e)),
{
    let api_version: &str = match member_str(val, "apiVersion") {
        Some(s) => s,
        None => "",
    };
    let kind: &str = match member_str(val, "kind") {
        Some(s) => s,
        None => "",
    };
    proof {
        reveal_strlit("");
        assert(""@ =~= Seq::<char>::empty());
    }
    let json = value_to_string(val);
    proof {
        if response_bytes(
            member_text(*val, "apiVersion"@),
            member_text(*val, "kind"@),
            value_text(*val),
        ).len() <= 4 + 16_777_216 {
            law_response_carries_its_value(*val);
        }
    }
    bytes_from(encode_response(api_version, kind, json.as_str()))
}

/// The decoded `Unknown` envelope.
pub struct ProtoEnvelope {
    /// The bytes of the object.
    pub raw: Vec<u8>,
    /// What the bytes are, such as "application/json"; empty where it was not
    /// said.
    pub content_type: String,
    /// The kind of the object, such as "Namespace"; empty where it was not
    /// said.
    pub kind: String,
    /// The API version of the object, such as "v1"; empty where it was not
    /// said.
    pub api_version: String,
}

/// The model of an envelope.
pub struct EnvelopeView {
    pub raw: Seq<u8>,
    pub content_type: Seq<char>,
    pub kind: Seq<char>,
    pub api_version: Seq<char>,
}

impl View for ProtoEnvelope {
    type V = EnvelopeView;

    open spec fn view(&self) -> EnvelopeView {
        EnvelopeView {
            raw: self.raw@,
            content_type: self.content_type@,
            kind: self.kind@,
            api_version: self.api_version@,
        }
    }
}

/// The payload of the `raw` field; empty where it is absent.
pub open spec fn raw_of(fields: Seq<FieldView>) -> Seq<u8> {
    match last_bytes(fields, 2) {
        None => Seq::empty(),
        Some(p) => p,
    }
}

/// The envelope that the fields of an `Unknown` message make.
pub open spec fn envelope_of(fields: Seq<FieldView>) -> EnvelopeView {
    let type_meta = merged_fields(
        all_bytes(fields, 1),
        Layout::TypeMeta.spec_maps(),
        (RECURSION_LIMIT - 1) as nat,
    );
    EnvelopeView {
        raw: raw_of(fields),
        content_type: text_of(fields, 4),
        kind: text_of(type_meta, 2),
        api_version: text_of(type_meta, 1),
    }
}

/// The envelope in a body. There is none where the magic bytes are missing, the
/// message is larger than the limit, is malformed or does not hold to its
/// layout, or carries no bytes.
pub open spec fn read_envelope(body: Seq<u8>) -> Option<EnvelopeView> {
    let message = body.skip(4);
    if body.len() < 4 || body.take(4) != magic() || message.len() > MAX_PROTO_ENVELOPE_BYTES {
        None
    } else {
        match read_fields(message, Seq::empty(), RECURSION_LIMIT as nat) {
            None => None,
            Some(fields) => if !well_laid(Layout::Unknown, fields, RECURSION_LIMIT as nat)
                || raw_of(fields).len() == 0 {
                None
            } else {
                Some(envelope_of(fields))
            },
        }
    }
}

/// Decodes the envelope of a Kubernetes protobuf body.
pub fn decode_k8s_proto_envelope(body: &[u8]) -> (r: Option<ProtoEnvelope>)
    ensures
        match read_envelope(body@) {
            None => r is None,
            Some(e) => r matches Some(envelope) && envelope@ == e,
        },
{
    if body.len() < 4 {
        return None;
    }
    let prefix = slice_subrange(body, 0, 4);
    let expected = k8s_proto_magic();
    assert(prefix@ =~= body@.take(4));
    if !bytes_eq(prefix, &expected) {
        return None;
    }
    let message = slice_subrange(body, 4, body.len());
    assert(message@ =~= body@.skip(4));
    if message.len() > MAX_PROTO_ENVELOPE_BYTES {
        return None;
    }
    let none: Vec<u32> = Vec::new();
    let fields = match split_fields(message, none.as_slice(), RECURSION_LIMIT) {
        None => {
            return None;
        },
        Some(fields) => fields,
    };
    if !check_fields(Layout::Unknown, fields.as_slice(), RECURSION_LIMIT) {
        return None;
    }
    let raw: Vec<u8> = match find_last_bytes(fields.as_slice(), 2) {
        None => Vec::new(),
        Some(p) => slice_to_vec(p),
    };
    if raw.len() == 0 {
        return None;
    }
    let ghost depth = RECURSION_LIMIT as nat;
    let content_type = read_text(Ghost(Layout::Unknown), fields.as_slice(), 4, Ghost(depth));
    let type_meta = read_message(
        Ghost(Layout::Unknown),
        fields.as_slice(),
        1,
        Layout::TypeMeta,
        RECURSION_LIMIT,
    );
    let ghost below = (RECURSION_LIMIT - 1) as nat;
    let api_version = read_text(Ghost(Layout::TypeMeta), type_meta.as_slice(), 1, Ghost(below));
    let kind = read_text(Ghost(Layout::TypeMeta), type_meta.as_slice(), 2, Ghost(below));
    Some(ProtoEnvelope { raw, content_type, kind, api_version })
}

/// Every text survives being encoded and decoded, and its encoding is empty
/// only where the text is.
pub proof fn lemma_text_round_trip(s: Seq<char>)
    ensures
        valid_utf8(encode_utf8(s)),
        decode_utf8(encode_utf8(s)) == s,
        encode_utf8(s).len() == 0 ==> s.len() == 0,
{
    vstd::utf8::encode_utf8_valid_utf8(s);
    vstd::utf8::encode_utf8_decode_utf8(s);
    if encode_utf8(s).len() == 0 {
        assert(decode_utf8(encode_utf8(s)) =~= Seq::<char>::empty());
    }
}

/// The field `number` with payload `p`.
pub open spec fn bytes_field(number: u32, p: Seq<u8>) -> FieldView {
    FieldView { number, value: ValueView::Bytes(p) }
}

/// The `Unknown` message of an object has exactly three fields: the type in
/// field 1, the bytes in field 2 and the content type in field 4, all of them
/// length-delimited. No other wire type occurs.
pub proof fn law_unknown_fields(
    api_version: Seq<u8>,
    kind: Seq<u8>,
    raw: Seq<u8>,
    content_type: Seq<u8>,
    depth: nat,
)
    requires
        unknown_bytes(api_version, kind, raw, content_type).len() <= u64::MAX,
    ensures
        read_fields(
            unknown_bytes(api_version, kind, raw, content_type),
            Seq::empty(),
            depth,
        ) == Some(
            seq![
                bytes_field(1, type_meta_bytes(api_version, kind)),
                bytes_field(2, raw),
                bytes_field(4, content_type),
            ],
        ),
{
    let none = Seq::<u32>::empty();
    let type_meta = type_meta_bytes(api_version, kind);
    let b1 = ld_field(1, type_meta);
    let b2 = ld_field(2, raw);
    let b4 = ld_field(4, content_type);
    let end = Seq::<u8>::empty();
    assert(unknown_bytes(api_version, kind, raw, content_type) =~= b1 + (b2 + (b4 + end)));
    law_ld_field_prefix(4, content_type, end, none, depth);
    law_ld_field_prefix(2, raw, b4 + end, none, depth);
    law_ld_field_prefix(1, type_meta, b2 + (b4 + end), none, depth);
    assert(read_fields(end, none, depth) == Some(Seq::<FieldView>::empty()));
    let f1 = bytes_field(1, type_meta);
    let f2 = bytes_field(2, raw);
    let f4 = bytes_field(4, content_type);
    assert(seq![f1] + (seq![f2] + (seq![f4] + Seq::<FieldView>::empty())) =~= seq![f1, f2, f4]);
}

/// The `TypeMeta` message of an object has exactly two fields, the API version
/// and the kind.
pub proof fn law_type_meta_fields(api_version: Seq<u8>, kind: Seq<u8>, depth: nat)
    requires
        type_meta_bytes(api_version, kind).len() <= u64::MAX,
    ensures
        read_fields(type_meta_bytes(api_version, kind), Seq::empty(), depth) == Some(
            seq![bytes_field(1, api_version), bytes_field(2, kind)],
        ),
{
    let none = Seq::<u32>::empty();
    let b1 = ld_field(1, api_version);
    let b2 = ld_field(2, kind);
    let end = Seq::<u8>::empty();
    assert(type_meta_bytes(api_version, kind) =~= b1 + (b2 + end));
    law_ld_field_prefix(2, kind, end, none, depth);
    law_ld_field_prefix(1, api_version, b2 + end, none, depth);
    assert(read_fields(end, none, depth) == Some(Seq::<FieldView>::empty()));
    let f1 = bytes_field(1, api_version);
    let f2 = bytes_field(2, kind);
    assert(seq![f1] + (seq![f2] + Seq::<FieldView>::empty()) =~= seq![f1, f2]);
}

proof fn lemma_type_meta_well_laid(a: Seq<u8>, k: Seq<u8>, depth: nat)
    requires
        valid_utf8(a),
        valid_utf8(k),
    ensures
        well_laid(Layout::TypeMeta, seq![bytes_field(1, a), bytes_field(2, k)], depth),
        last_bytes(seq![bytes_field(1, a), bytes_field(2, k)], 1) == Some(a),
        last_bytes(seq![bytes_field(1, a), bytes_field(2, k)], 2) == Some(k),
{
    let g1 = bytes_field(1, a);
    let g2 = bytes_field(2, k);
    let none = Seq::<FieldView>::empty();
    assert(seq![g1, g2].drop_last() =~= seq![g1]);
    assert(seq![g1].drop_last() =~= none);
    assert(well_laid(Layout::TypeMeta, none, depth));
    assert(well_laid_field(Layout::TypeMeta, g1, depth));
    assert(well_laid(Layout::TypeMeta, seq![g1], depth));
    assert(well_laid_field(Layout::TypeMeta, g2, depth));
    assert(last_bytes(seq![g1], 1) == Some(a));
}

proof fn lemma_unknown_well_laid(m: Seq<u8>, raw: Seq<u8>, c: Seq<u8>, depth: nat)
    requires
        depth > 0,
        valid_utf8(c),
        read_fields(m, Seq::empty(), (depth - 1) as nat) matches Some(fs) && well_laid(
            Layout::TypeMeta,
            fs,
            (depth - 1) as nat,
        ),
    ensures
        well_laid(
            Layout::Unknown,
            seq![bytes_field(1, m), bytes_field(2, raw), bytes_field(4, c)],
            depth,
        ),
{
    let f1 = bytes_field(1, m);
    let f2 = bytes_field(2, raw);
    let f4 = bytes_field(4, c);
    let none = Seq::<FieldView>::empty();
    assert(Layout::TypeMeta.spec_maps() =~= Seq::<u32>::empty());
    assert(seq![f1, f2, f4].drop_last() =~= seq![f1, f2]);
    assert(seq![f1, f2].drop_last() =~= seq![f1]);
    assert(seq![f1].drop_last() =~= none);
    assert(well_laid(Layout::Unknown, none, depth));
    assert(well_laid_field(Layout::Unknown, f1, depth));
    assert(well_laid(Layout::Unknown, seq![f1], depth));
    assert(well_laid_field(Layout::Unknown, f2, depth));
    assert(well_laid(Layout::Unknown, seq![f1, f2], depth));
    assert(well_laid_field(Layout::Unknown, f4, depth));
}

proof fn lemma_unknown_parts(m: Seq<u8>, raw: Seq<u8>, c: Seq<u8>)
    ensures
        last_bytes(seq![bytes_field(1, m), bytes_field(2, raw), bytes_field(4, c)], 2) == Some(raw),
        last_bytes(seq![bytes_field(1, m), bytes_field(2, raw), bytes_field(4, c)], 4) == Some(c),
        all_bytes(seq![bytes_field(1, m), bytes_field(2, raw), bytes_field(4, c)], 1) == seq![m],
{
    let f1 = bytes_field(1, m);
    let f2 = bytes_field(2, raw);
    let f4 = bytes_field(4, c);
    assert(seq![f1, f2, f4].drop_last() =~= seq![f1, f2]);
    assert(seq![f1, f2].drop_last() =~= seq![f1]);
    assert(seq![f1].drop_last() =~= Seq::<FieldView>::empty());
    assert(last_bytes(seq![f1, f2], 2) == Some(raw));
    assert(all_bytes(Seq::<FieldView>::empty(), 1) =~= Seq::<Seq<u8>>::empty());
    assert(all_bytes(seq![f1], 1) =~= seq![m]);
    assert(all_bytes(seq![f1, f2], 1) =~= seq![m]);
}

/// What was put into an envelope is what comes out of it: type, bytes and
/// content type. It holds for every object within the size limit that carries
/// any bytes.
pub proof fn law_envelope_round_trip(
    api_version: Seq<char>,
    kind: Seq<char>,
    raw: Seq<u8>,
    content_type: Seq<char>,
)
    requires
        raw.len() > 0,
        unknown_bytes(
            encode_utf8(api_version),
            encode_utf8(kind),
            raw,
            encode_utf8(content_type),
        ).len() <= MAX_PROTO_ENVELOPE_BYTES,
    ensures
        read_envelope(
            magic() + unknown_bytes(
                encode_utf8(api_version),
                encode_utf8(kind),
                raw,
                encode_utf8(content_type),
            ),
        ) == Some(EnvelopeView { raw, content_type, kind, api_version }),
{
    let a = encode_utf8(api_version);
    let k = encode_utf8(kind);
    let c = encode_utf8(content_type);
    let message = unknown_bytes(a, k, raw, c);
    let type_meta = type_meta_bytes(a, k);
    let body = magic() + message;
    let depth = RECURSION_LIMIT as nat;
    let below = (RECURSION_LIMIT - 1) as nat;
    let fields = seq![bytes_field(1, type_meta), bytes_field(2, raw), bytes_field(4, c)];
    let inner = seq![bytes_field(1, a), bytes_field(2, k)];
    assert(body.take(4) =~= magic());
    assert(body.skip(4) =~= message);
    lemma_text_round_trip(api_version);
    lemma_text_round_trip(kind);
    lemma_text_round_trip(content_type);
    law_unknown_fields(a, k, raw, c, depth);
    law_type_meta_fields(a, k, below);
    lemma_type_meta_well_laid(a, k, below);
    lemma_unknown_well_laid(type_meta, raw, c, depth);
    lemma_unknown_parts(type_meta, raw, c);
    assert(merged_fields(seq![type_meta], Layout::TypeMeta.spec_maps(), below) =~= inner) by {
        assert(Layout::TypeMeta.spec_maps() =~= Seq::<u32>::empty());
        assert(seq![type_meta].drop_last() =~= Seq::<Seq<u8>>::empty());
        assert(merged_fields(Seq::empty(), Seq::empty(), below) =~= Seq::<FieldView>::empty());
    }
    assert(envelope_of(fields) == EnvelopeView { raw, content_type, kind, api_version });
}

/// An encoded response is decoded to the type and the JSON text that it was
/// made from, marked as JSON, whenever it is within the size limit.
pub proof fn law_response_round_trip(api_version: Seq<char>, kind: Seq<char>, json: Seq<char>)
    requires
        json.len() > 0,
        response_bytes(api_version, kind, json).len() <= 4 + MAX_PROTO_ENVELOPE_BYTES,
    ensures
        read_envelope(response_bytes(api_version, kind, json)) == Some(
            EnvelopeView {
                raw: encode_utf8(json),
                content_type: json_content_type(),
                kind,
                api_version,
            },
        ),
{
    lemma_text_round_trip(json);
    law_envelope_round_trip(api_version, kind, encode_utf8(json), json_content_type());
}

/// Every body from which an envelope is decoded starts with the magic bytes, is
/// within the size limit and carries bytes.
pub proof fn law_envelope_accepts_only_framed_bodies(body: Seq<u8>)
    ensures
        read_envelope(body) matches Some(e) ==> body.len() > 4 && body.take(4) == magic()
            && body.len() <= 4 + MAX_PROTO_ENVELOPE_BYTES && e.raw.len() > 0,
{
    if body.len() == 4 {
        assert(body.skip(4) =~= Seq::<u8>::empty());
        assert(raw_of(Seq::empty()).len() == 0);
    }
}

/// Which bodies hold an envelope: those with the four magic bytes and a message
/// of at most 16 MiB that is well-formed, whose type is a `TypeMeta`, whose
/// content encoding and content type are texts, and whose last bytes are not
/// empty.
pub proof fn law_envelope_is_accepted_exactly(body: Seq<u8>, fields: Seq<FieldView>)
    requires
        body.len() >= 4,
        read_fields(body.skip(4), Seq::empty(), 100) == Some(fields),
    ensures
        read_envelope(body) is Some <==> {
            &&& body[0] == 0x6b && body[1] == 0x38 && body[2] == 0x73 && body[3] == 0
            &&& body.len() - 4 <= 16_777_216
            &&& forall|i: int|
                0 <= i < fields.len() ==> {
                    let f = #[trigger] fields[i];
                    &&& f.number == 1 ==> embeds(f, Layout::TypeMeta, Seq::empty(), 100)
                    &&& f.number == 2 ==> f.value is Bytes
                    &&& f.number == 3 || f.number == 4 ==> is_text(f)
                }
            &&& exists|i: int|
                0 <= i < fields.len() && #[trigger] last_numbered(fields, 2, i) && (
                fields[i].value matches ValueView::Bytes(p) && p.len() > 0)
        },
{
    law_unknown_layout(fields, 100);
    let start = body.take(4);
    if body[0] == 0x6b && body[1] == 0x38 && body[2] == 0x73 && body[3] == 0 {
        assert(start =~= magic());
    } else {
        assert(start[0] == body[0] && start[1] == body[1] && start[2] == body[2] && start[3]
            == body[3]);
    }
    if well_laid(Layout::Unknown, fields, 100) {
        let found = lemma_last_numbered(fields, 2);
        if found < 0 {
            law_absent_field_gives_nothing(fields, 2);
        } else {
            assert(fields[found].value is Bytes);
            law_last_field_counts(fields, 2, found);
        }
        if exists|i: int|
            0 <= i < fields.len() && #[trigger] last_numbered(fields, 2, i) && (
            fields[i].value matches ValueView::Bytes(p) && p.len() > 0) {
            let i = choose|i: int|
                0 <= i < fields.len() && #[trigger] last_numbered(fields, 2, i) && (
                fields[i].value matches ValueView::Bytes(p) && p.len() > 0);
            law_last_field_counts(fields, 2, i);
        }
    }
}

/// A body that is no well-formed message after its first four bytes holds no
/// envelope.
pub proof fn law_malformed_envelope_is_refused(body: Seq<u8>)
    requires
        body.len() < 4 || read_fields(body.skip(4), Seq::empty(), 100) is None,
    ensures
        read_envelope(body) is None,
{
}

/// What an envelope holds: the last bytes, the last content type, and the last
/// API version and kind among all types that were sent, each empty where it was
/// not sent. Nothing else in the message counts.
pub proof fn law_envelope_contents(body: Seq<u8>, fields: Seq<FieldView>, types: Seq<FieldView>)
    requires
        body.len() >= 4,
        read_fields(body.skip(4), Seq::empty(), 100) == Some(fields),
        types == merged_fields(all_bytes(fields, 1), Seq::empty(), 99),
        read_envelope(body) is Some,
    ensures
        ({
            let e = read_envelope(body)->0;
            &&& forall|i: int| #[trigger]
                last_numbered(fields, 2, i) ==> fields[i].value == ValueView::Bytes(e.raw)
            &&& forall|i: int| #[trigger]
                last_numbered(fields, 4, i) ==> (fields[i].value matches ValueView::Bytes(p)
                    && e.content_type == decode_utf8(p))
            &&& (forall|k: int| 0 <= k < fields.len() ==> (#[trigger] fields[k]).number != 4)
                ==> e.content_type == Seq::<char>::empty()
            &&& forall|i: int| #[trigger]
                last_numbered(types, 1, i) && types[i].value is Bytes ==> e.api_version
                    == decode_utf8(types[i].value->Bytes_0)
            &&& (forall|k: int| 0 <= k < types.len() ==> (#[trigger] types[k]).number != 1)
                ==> e.api_version == Seq::<char>::empty()
            &&& forall|i: int| #[trigger]
                last_numbered(types, 2, i) && types[i].value is Bytes ==> e.kind == decode_utf8(
                    types[i].value->Bytes_0,
                )
            &&& (forall|k: int| 0 <= k < types.len() ==> (#[trigger] types[k]).number != 2)
                ==> e.kind == Seq::<char>::empty()
        }),
{
    law_unknown_layout(fields, 100);
    assert(Layout::TypeMeta.spec_maps() =~= Seq::<u32>::empty());
    let e = read_envelope(body)->0;
    assert forall|i: int| #[trigger] last_numbered(fields, 2, i) implies fields[i].value
        == ValueView::Bytes(e.raw) by {
        law_last_field_counts(fields, 2, i);
    }
    assert forall|i: int| #[trigger] last_numbered(fields, 4, i) implies (
    fields[i].value matches ValueView::Bytes(p) && e.content_type == decode_utf8(p)) by {
        law_last_field_counts(fields, 4, i);
    }
    assert forall|i: int| #[trigger]
        last_numbered(types, 1, i) && types[i].value is Bytes implies e.api_version == decode_utf8(
        types[i].value->Bytes_0,
    ) by {
        law_last_field_counts(types, 1, i);
    }
    assert forall|i: int| #[trigger]
        last_numbered(types, 2, i) && types[i].value is Bytes implies e.kind == decode_utf8(
        types[i].value->Bytes_0,
    ) by {
        law_last_field_counts(types, 2, i);
    }
    if forall|k: int| 0 <= k < fields.len() ==> (#[trigger] fields[k]).number != 4 {
        law_absent_field_gives_nothing(fields, 4);
    }
    if forall|k: int| 0 <= k < types.len() ==> (#[trigger] types[k]).number != 1 {
        law_absent_field_gives_nothing(types, 1);
    }
    if forall|k: int| 0 <= k < types.len() ==> (#[trigger] types[k]).number != 2 {
        law_absent_field_gives_nothing(types, 2);
    }
}

/// An envelope in which all four fields were sent is decoded to its type, bytes
/// and content type, whatever the text of its content encoding.
pub proof fn law_content_encoding_makes_no_difference(
    api_version: Seq<char>,
    kind: Seq<char>,
    raw: Seq<u8>,
    content_encoding: Seq<char>,
    content_type: Seq<char>,
)
    requires
        raw.len() > 0,
        (ld_field(1, type_meta_bytes(encode_utf8(api_version), encode_utf8(kind))) + ld_field(
            2,
            raw,
        ) + ld_field(3, encode_utf8(content_encoding)) + ld_field(
            4,
            encode_utf8(content_type),
        )).len() <= 16_777_216,
    ensures
        read_envelope(
            seq![0x6bu8, 0x38u8, 0x73u8, 0x00u8] + (ld_field(
                1,
                ld_field(1, encode_utf8(api_version)) + ld_field(2, encode_utf8(kind)),
            ) + ld_field(2, raw) + ld_field(3, encode_utf8(content_encoding)) + ld_field(
                4,
                encode_utf8(content_type),
            )),
        ) == Some(EnvelopeView { raw, content_type, kind, api_version }),
{
    let a = encode_utf8(api_version);
    let k = encode_utf8(kind);
    let x = encode_utf8(content_encoding);
    let c = encode_utf8(content_type);
    let m = type_meta_bytes(a, k);
    let message = ld_field(1, m) + ld_field(2, raw) + ld_field(3, x) + ld_field(4, c);
    let body = magic() + message;
    let fields = seq![bytes_field(1, m), bytes_field(2, raw), bytes_field(3, x), bytes_field(4, c)];
    let inner = seq![bytes_field(1, a), bytes_field(2, k)];
    assert(body.take(4) =~= magic());
    assert(body.skip(4) =~= message);
    lemma_text_round_trip(api_version);
    lemma_text_round_trip(kind);
    lemma_text_round_trip(content_encoding);
    lemma_text_round_trip(content_type);
    lemma_four_fields(m, raw, x, c);
    assert(m.len() <= message.len());
    law_type_meta_fields(a, k, 99);
    lemma_type_meta_well_laid(a, k, 99);
    lemma_four_well_laid(m, raw, x, c);
    law_last_field_counts(fields, 2, 1);
    law_last_field_counts(fields, 4, 3);
    lemma_only_type(fields, m, inner);
    assert(envelope_of(fields) == EnvelopeView { raw, content_type, kind, api_version });
}

proof fn lemma_four_fields(m: Seq<u8>, raw: Seq<u8>, x: Seq<u8>, c: Seq<u8>)
    requires
        (ld_field(1, m) + ld_field(2, raw) + ld_field(3, x) + ld_field(4, c)).len() <= u64::MAX,
    ensures
        read_fields(
            ld_field(1, m) + ld_field(2, raw) + ld_field(3, x) + ld_field(4, c),
            Seq::empty(),
            100,
        ) == Some(
            seq![bytes_field(1, m), bytes_field(2, raw), bytes_field(3, x), bytes_field(4, c)],
        ),
{
    let none = Seq::<u32>::empty();
    let end = Seq::<u8>::empty();
    let f1 = bytes_field(1, m);
    let f2 = bytes_field(2, raw);
    let f3 = bytes_field(3, x);
    let f4 = bytes_field(4, c);
    let b4 = ld_field(4, c) + end;
    let b3 = ld_field(3, x) + b4;
    let b2 = ld_field(2, raw) + b3;
    assert(ld_field(1, m) + ld_field(2, raw) + ld_field(3, x) + ld_field(4, c) =~= ld_field(1, m)
        + b2);
    law_ld_field_prefix(4, c, end, none, 100);
    law_ld_field_prefix(3, x, b4, none, 100);
    law_ld_field_prefix(2, raw, b3, none, 100);
    law_ld_field_prefix(1, m, b2, none, 100);
    assert(read_fields(end, none, 100) == Some(Seq::<FieldView>::empty()));
    assert(seq![f1] + (seq![f2] + (seq![f3] + (seq![f4] + Seq::<FieldView>::empty()))) =~= seq![
        f1,
        f2,
        f3,
        f4,
    ]);
}

proof fn lemma_four_well_laid(m: Seq<u8>, raw: Seq<u8>, x: Seq<u8>, c: Seq<u8>)
    requires
        valid_utf8(x),
        valid_utf8(c),
        read_fields(m, Seq::empty(), 99) matches Some(fs) && well_laid(Layout::TypeMeta, fs, 99),
    ensures
        well_laid(
            Layout::Unknown,
            seq![bytes_field(1, m), bytes_field(2, raw), bytes_field(3, x), bytes_field(4, c)],
            100,
        ),
{
    let fields = seq![bytes_field(1, m), bytes_field(2, raw), bytes_field(3, x), bytes_field(4, c)];
    law_unknown_layout(fields, 100);
    assert(embeds(fields[0], Layout::TypeMeta, Seq::empty(), 100));
}

proof fn lemma_only_type(fields: Seq<FieldView>, m: Seq<u8>, inner: Seq<FieldView>)
    requires
        fields.len() > 0,
        fields[0] == bytes_field(1, m),
        forall|i: int| 1 <= i < fields.len() ==> (#[trigger] fields[i]).number != 1,
        read_fields(m, Seq::empty(), 99) == Some(inner),
    ensures
        all_bytes(fields, 1) == seq![m],
        merged_fields(all_bytes(fields, 1), Layout::TypeMeta.spec_maps(), 99) == inner,
    decreases fields.len(),
{
    let front = fields.drop_last();
    let nothing = Seq::<FieldView>::empty();
    if fields.len() == 1 {
        assert(front =~= nothing);
        assert(all_bytes(nothing, 1) =~= Seq::<Seq<u8>>::empty());
        assert(all_bytes(fields, 1) =~= seq![m]);
    } else {
        assert(fields[fields.len() - 1].number != 1);
        assert forall|i: int| 1 <= i < front.len() implies (#[trigger] front[i]).number != 1 by {
            assert(front[i] == fields[i]);
        }
        lemma_only_type(front, m, inner);
    }
    assert(Layout::TypeMeta.spec_maps() =~= Seq::<u32>::empty());
    assert(seq![m].drop_last() =~= Seq::<Seq<u8>>::empty());
    assert(merged_fields(Seq::empty(), Seq::empty(), 99) =~= nothing);
    assert(merged_fields(seq![m], Seq::empty(), 99) =~= inner);
}

/// A response carries its value: the API version and the kind are the texts of
/// the members of those names, whatever the texts, and empty only where there is
/// no such text; the bytes are the JSON text, marked as JSON.
pub proof fn law_response_carries_its_value(val: serde_json::Value)
    requires
        value_text(val).len() > 0,
        response_bytes(
            member_text(val, "apiVersion"@),
            member_text(val, "kind"@),
            value_text(val),
        ).len() <= 4 + 16_777_216,
    ensures
        ({
            let body = response_bytes(
                member_text(val, "apiVersion"@),
                member_text(val, "kind"@),
                value_text(val),
            );
            &&& read_envelope(body) is Some
            &&& response_names(val, read_envelope(body)->0)
        }),
{
    law_response_round_trip(
        member_text(val, "apiVersion"@),
        member_text(val, "kind"@),
        value_text(val),
    );
    lemma_member_text(val, "apiVersion"@);
    lemma_member_text(val, "kind"@);
}

proof fn lemma_member_text(val: serde_json::Value, name: Seq<char>)
    ensures
        forall|t: Seq<char>| #[trigger]
            value_members(val).contains_pair(name, Some(t)) ==> member_text(val, name) == t,
        (forall|t: Seq<char>| !#[trigger] value_members(val).contains_pair(name, Some(t)))
            ==> member_text(val, name) == Seq::<char>::empty(),
{
    let members = value_members(val);
    if members.contains_key(name) {
        if let Some(s) = members[name] {
            assert(members.contains_pair(name, Some(s)));
        }
    }
}

/// Whether an envelope carries a JSON value as a response: the texts of its
/// members "apiVersion" and "kind", and its JSON text.
pub open spec fn response_names(val: serde_json::Value, e: EnvelopeView) -> bool {
    let members = value_members(val);
    &&& forall|t: Seq<char>| #[trigger]
        members.contains_pair("apiVersion"@, Some(t)) ==> e.api_version == t
    &&& forall|t: Seq<char>| #[trigger] members.contains_pair("kind"@, Some(t)) ==> e.kind == t
    &&& (forall|t: Seq<char>| !#[trigger] members.contains_pair("apiVersion"@, Some(t)))
        ==> e.api_version == Seq::<char>::empty()
    &&& (forall|t: Seq<char>| !#[trigger] members.contains_pair("kind"@, Some(t))) ==> e.kind
        == Seq::<char>::empty()
    &&& e.raw == encode_utf8(value_text(val))
    &&& e.content_type == "application/json"@
}

} // verus!

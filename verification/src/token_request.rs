//! Token requests.
use crate::envelope::{bytes_field, lemma_text_round_trip};
use crate::fields::{
    all_bytes, find_all_bytes, find_last_varint, last_bytes, last_numbered, last_varint,
    law_absent_field_gives_nothing, law_all_payloads_in_order, law_fields_of_concatenation,
    law_last_field_counts, law_ld_field_prefix, law_numbers_are_independent,
    law_varint_field_round_trip, lemma_all_bytes_concat, merged_fields, numbered, read_fields,
    split_fields, varint_field, views, FieldView, ValueView, WireField,
};
use crate::json::{lemma_object_view, member_views, Json, JsonView};
use crate::layout::{
    check_fields, embeds, law_token_request_layout, law_token_request_spec_layout,
    lemma_merged_well_laid, lemma_well_laid_concat, read_message, read_text, read_texts, text_of,
    texts_of, well_laid, well_laid_field, Layout,
};
use crate::text::texts;
use crate::wire::{ld_field, RECURSION_LIMIT};
use vstd::prelude::*;
use vstd::utf8::{decode_utf8, encode_utf8, valid_utf8};

verus! {

/// What a token request asks for.
pub struct TokenRequestFields {
    pub audiences: Vec<String>,
    /// The lifetime that was asked for; `None` where none was.
    pub expiration_seconds: Option<u64>,
    /// The object that the token is bound to; `None` where there is none.
    pub bound_object_ref: Option<Json>,
}

/// The model of what a token request asks for.
pub struct TokenRequestView {
    pub audiences: Seq<Seq<char>>,
    pub expiration_seconds: Option<u64>,
    pub bound_object_ref: Option<JsonView>,
}

impl View for TokenRequestFields {
    type V = TokenRequestView;

    open spec fn view(&self) -> TokenRequestView {
        TokenRequestView {
            audiences: texts(self.audiences@),
            expiration_seconds: self.expiration_seconds,
            bound_object_ref: match self.bound_object_ref {
                None => None,
                Some(j) => Some(j@),
            },
        }
    }
}

/// The lifetime in the fields of a `TokenRequestSpec`: an `int64` that counts
/// only where it is positive.
pub open spec fn expiration_of(spec_fields: Seq<FieldView>) -> Option<u64> {
    match last_varint(spec_fields, 4) {
        Some(v) if 0 < v < 0x8000_0000_0000_0000 => Some(v),
        _ => None,
    }
}

/// The JSON object for the fields of a `BoundObjectReference`.
pub open spec fn bound_object(fields: Seq<FieldView>) -> JsonView {
    JsonView::Object(
        seq![
            ("apiVersion"@, JsonView::Str(text_of(fields, 2))),
            ("kind"@, JsonView::Str(text_of(fields, 1))),
            ("name"@, JsonView::Str(text_of(fields, 3))),
            ("uid"@, JsonView::Str(text_of(fields, 4))),
        ],
    )
}

/// What the fields of a `TokenRequest` ask for. An absent spec counts as an
/// empty one.
pub open spec fn token_request_of(fields: Seq<FieldView>) -> TokenRequestView {
    let spec_fields = merged_fields(
        all_bytes(fields, 2),
        Layout::TokenRequestSpec.spec_maps(),
        (RECURSION_LIMIT - 1) as nat,
    );
    let references = all_bytes(spec_fields, 3);
    TokenRequestView {
        audiences: texts_of(spec_fields, 1),
        expiration_seconds: expiration_of(spec_fields),
        bound_object_ref: if references.len() == 0 {
            None
        } else {
            Some(
                bound_object(
                    merged_fields(
                        references,
                        Layout::BoundObjectReference.spec_maps(),
                        (RECURSION_LIMIT - 2) as nat,
                    ),
                ),
            )
        },
    }
}

/// The token request in a body; `None` where the body is malformed or does not
/// hold to its layout.
pub open spec fn read_token_request(raw: Seq<u8>) -> Option<TokenRequestView> {
    match read_fields(raw, Layout::TokenRequest.spec_maps(), RECURSION_LIMIT as nat) {
        None => None,
        Some(fields) => if well_laid(Layout::TokenRequest, fields, RECURSION_LIMIT as nat) {
            Some(token_request_of(fields))
        } else {
            None
        },
    }
}

/// Decodes the bytes of a protobuf-encoded `TokenRequest`.
pub fn decode_token_request(raw: &[u8]) -> (r: Option<TokenRequestFields>)
    ensures
        match read_token_request(raw@) {
            None => r is None,
            Some(v) => r matches Some(fields) && fields@ == v,
        },
{
    let maps = Layout::TokenRequest.maps();
    let fields = match split_fields(raw, maps.as_slice(), RECURSION_LIMIT) {
        None => {
            return None;
        },
        Some(fields) => fields,
    };
    if !check_fields(Layout::TokenRequest, fields.as_slice(), RECURSION_LIMIT) {
        return None;
    }
    let spec_fields = read_message(
        Ghost(Layout::TokenRequest),
        fields.as_slice(),
        2,
        Layout::TokenRequestSpec,
        RECURSION_LIMIT,
    );
    let ghost below = (RECURSION_LIMIT - 1) as nat;
    let audiences = read_texts(
        Ghost(Layout::TokenRequestSpec),
        spec_fields.as_slice(),
        1,
        Ghost(below),
    );
    let expiration_seconds: Option<u64> = match find_last_varint(spec_fields.as_slice(), 4) {
        Some(v) => if v > 0 && v < 0x8000_0000_0000_0000 {
            Some(v)
        } else {
            None
        },
        None => None,
    };
    let references = find_all_bytes(spec_fields.as_slice(), 3);
    let bound_object_ref: Option<Json> = if references.len() == 0 {
        None
    } else {
        let reference = read_message(
            Ghost(Layout::TokenRequestSpec),
            spec_fields.as_slice(),
            3,
            Layout::BoundObjectReference,
            RECURSION_LIMIT - 1,
        );
        Some(bound_object_json(reference.as_slice(), Ghost((RECURSION_LIMIT - 2) as nat)))
    };
    Some(TokenRequestFields { audiences, expiration_seconds, bound_object_ref })
}

/// Builds the JSON object for a bound object reference.
fn bound_object_json(fields: &[WireField], Ghost(depth): Ghost<nat>) -> (r: Json)
    requires
        well_laid(Layout::BoundObjectReference, views(fields@), depth),
    ensures
        r@ == bound_object(views(fields@)),
{
    let layout: Ghost<Layout> = Ghost(Layout::BoundObjectReference);
    let api_version = read_text(layout, fields, 2, Ghost(depth));
    let kind = read_text(layout, fields, 1, Ghost(depth));
    let name = read_text(layout, fields, 3, Ghost(depth));
    let uid = read_text(layout, fields, 4, Ghost(depth));
    let mut members: Vec<(String, Json)> = Vec::new();
    members.push(("apiVersion".to_owned(), Json::Str(api_version)));
    members.push(("kind".to_owned(), Json::Str(kind)));
    members.push(("name".to_owned(), Json::Str(name)));
    members.push(("uid".to_owned(), Json::Str(uid)));
    proof {
        lemma_object_view(members);
        assert(member_views(members@) =~= bound_object(views(fields@))->Object_0);
    }
    Json::Object(members)
}

/// An object that a token is bound to.
pub struct Reference {
    pub kind: Seq<char>,
    pub api_version: Seq<char>,
    pub name: Seq<char>,
    pub uid: Seq<char>,
}

/// The bytes of a `BoundObjectReference`.
pub open spec fn reference_bytes(r: Reference) -> Seq<u8> {
    ld_field(1, encode_utf8(r.kind)) + ld_field(2, encode_utf8(r.api_version)) + ld_field(
        3,
        encode_utf8(r.name),
    ) + ld_field(4, encode_utf8(r.uid))
}

/// The bytes of the audiences of a `TokenRequestSpec`.
pub open spec fn audience_bytes(audiences: Seq<Seq<char>>) -> Seq<u8>
    decreases audiences.len(),
{
    if audiences.len() == 0 {
        Seq::empty()
    } else {
        audience_bytes(audiences.drop_last()) + ld_field(1, encode_utf8(audiences.last()))
    }
}

/// The bytes of a `TokenRequestSpec`.
pub open spec fn spec_bytes(
    audiences: Seq<Seq<char>>,
    reference: Option<Reference>,
    expiration: u64,
) -> Seq<u8> {
    audience_bytes(audiences) + (match reference {
        None => Seq::empty(),
        Some(r) => ld_field(3, reference_bytes(r)),
    } + varint_field(4, expiration))
}

/// The fields of the audiences of a `TokenRequestSpec`.
pub open spec fn audience_fields(audiences: Seq<Seq<char>>) -> Seq<FieldView> {
    Seq::new(audiences.len(), |i: int| bytes_field(1, encode_utf8(audiences[i])))
}

proof fn lemma_one_field(number: nat, payload: Seq<u8>, depth: nat)
    requires
        1 <= number < 0x2000_0000,
        payload.len() <= u64::MAX,
    ensures
        read_fields(ld_field(number, payload), Seq::empty(), depth) == Some(
            seq![bytes_field(number as u32, payload)],
        ),
{
    let end = Seq::<u8>::empty();
    law_ld_field_prefix(number, payload, end, Seq::empty(), depth);
    assert(ld_field(number, payload) + end =~= ld_field(number, payload));
    assert(read_fields(end, Seq::empty(), depth) == Some(Seq::<FieldView>::empty()));
    assert(seq![bytes_field(number as u32, payload)] + Seq::<FieldView>::empty()
        =~= seq![bytes_field(number as u32, payload)]);
}

proof fn lemma_audience_bytes(audiences: Seq<Seq<char>>, depth: nat)
    requires
        audience_bytes(audiences).len() <= u64::MAX,
    ensures
        read_fields(audience_bytes(audiences), Seq::empty(), depth) == Some(
            audience_fields(audiences),
        ),
    decreases audiences.len(),
{
    let fields = audience_fields(audiences);
    if audiences.len() == 0 {
        assert(fields =~= Seq::<FieldView>::empty());
    } else {
        let front = audiences.drop_last();
        let last = encode_utf8(audiences.last());
        lemma_audience_bytes(front, depth);
        lemma_one_field(1, last, depth);
        law_fields_of_concatenation(
            audience_bytes(front),
            ld_field(1, last),
            Seq::empty(),
            depth,
        );
        assert(fields =~= audience_fields(front) + seq![bytes_field(1, last)]);
    }
}

proof fn lemma_audience_fields(audiences: Seq<Seq<char>>, depth: nat)
    ensures
        well_laid(Layout::TokenRequestSpec, audience_fields(audiences), depth),
        texts_of(audience_fields(audiences), 1) == audiences,
        all_bytes(audience_fields(audiences), 3) == Seq::<Seq<u8>>::empty(),
    decreases audiences.len(),
{
    let fields = audience_fields(audiences);
    if audiences.len() == 0 {
        assert(fields =~= Seq::<FieldView>::empty());
        assert(texts_of(fields, 1) =~= audiences);
        assert(all_bytes(fields, 3) =~= Seq::<Seq<u8>>::empty());
    } else {
        let front = audiences.drop_last();
        let last = encode_utf8(audiences.last());
        lemma_audience_fields(front, depth);
        lemma_text_round_trip(audiences.last());
        assert(fields.drop_last() =~= audience_fields(front));
        assert(fields.last() == bytes_field(1, last));
        assert(well_laid_field(Layout::TokenRequestSpec, bytes_field(1, last), depth));
        assert(all_bytes(fields, 1) == all_bytes(audience_fields(front), 1).push(last));
        assert(texts_of(fields, 1) =~= texts_of(audience_fields(front), 1).push(
            audiences.last(),
        ));
        assert(front.push(audiences.last()) =~= audiences);
    }
}

#[verifier::rlimit(40)]
proof fn lemma_reference(r: Reference, depth: nat)
    requires
        reference_bytes(r).len() <= u64::MAX,
    ensures
        read_fields(reference_bytes(r), Seq::empty(), depth) matches Some(fs) && well_laid(
            Layout::BoundObjectReference,
            fs,
            depth,
        ) && text_of(fs, 1) == r.kind && text_of(fs, 2) == r.api_version && text_of(fs, 3) == r.name
            && text_of(fs, 4) == r.uid,
{
    let none = Seq::<u32>::empty();
    let end = Seq::<u8>::empty();
    let k = encode_utf8(r.kind);
    let a = encode_utf8(r.api_version);
    let n = encode_utf8(r.name);
    let u = encode_utf8(r.uid);
    lemma_text_round_trip(r.kind);
    lemma_text_round_trip(r.api_version);
    lemma_text_round_trip(r.name);
    lemma_text_round_trip(r.uid);
    let b4 = ld_field(4, u) + end;
    let b3 = ld_field(3, n) + b4;
    let b2 = ld_field(2, a) + b3;
    assert(reference_bytes(r) =~= ld_field(1, k) + b2);
    law_ld_field_prefix(4, u, end, none, depth);
    law_ld_field_prefix(3, n, b4, none, depth);
    law_ld_field_prefix(2, a, b3, none, depth);
    law_ld_field_prefix(1, k, b2, none, depth);
    assert(read_fields(end, none, depth) == Some(Seq::<FieldView>::empty()));
    let f1 = bytes_field(1, k);
    let f2 = bytes_field(2, a);
    let f3 = bytes_field(3, n);
    let f4 = bytes_field(4, u);
    let fs = seq![f1, f2, f3, f4];
    assert(seq![f1] + (seq![f2] + (seq![f3] + (seq![f4] + Seq::<FieldView>::empty()))) =~= fs);
    lemma_four_texts(k, a, n, u, depth);
}

proof fn lemma_four_texts(k: Seq<u8>, a: Seq<u8>, n: Seq<u8>, u: Seq<u8>, depth: nat)
    requires
        valid_utf8(k),
        valid_utf8(a),
        valid_utf8(n),
        valid_utf8(u),
    ensures
        ({
            let fs = seq![bytes_field(1, k), bytes_field(2, a), bytes_field(3, n), bytes_field(
                4,
                u,
            )];
            &&& well_laid(Layout::BoundObjectReference, fs, depth)
            &&& last_bytes(fs, 1) == Some(k)
            &&& last_bytes(fs, 2) == Some(a)
            &&& last_bytes(fs, 3) == Some(n)
            &&& last_bytes(fs, 4) == Some(u)
        }),
{
    let f1 = bytes_field(1, k);
    let f2 = bytes_field(2, a);
    let f3 = bytes_field(3, n);
    let f4 = bytes_field(4, u);
    let layout = Layout::BoundObjectReference;
    assert(seq![f1, f2, f3, f4].drop_last() =~= seq![f1, f2, f3]);
    assert(seq![f1, f2, f3].drop_last() =~= seq![f1, f2]);
    assert(seq![f1, f2].drop_last() =~= seq![f1]);
    assert(seq![f1].drop_last() =~= Seq::<FieldView>::empty());
    assert(well_laid(layout, Seq::empty(), depth));
    assert(well_laid_field(layout, f1, depth));
    assert(well_laid(layout, seq![f1], depth));
    assert(well_laid_field(layout, f2, depth));
    assert(well_laid(layout, seq![f1, f2], depth));
    assert(well_laid_field(layout, f3, depth));
    assert(well_laid(layout, seq![f1, f2, f3], depth));
    assert(well_laid_field(layout, f4, depth));
    assert(last_bytes(seq![f1], 1) == Some(k));
    assert(last_bytes(seq![f1, f2], 1) == Some(k));
    assert(last_bytes(seq![f1, f2], 2) == Some(a));
    assert(last_bytes(seq![f1, f2, f3], 1) == Some(k));
    assert(last_bytes(seq![f1, f2, f3], 2) == Some(a));
    assert(last_bytes(seq![f1, f2, f3], 3) == Some(n));
}

/// The fields of a `TokenRequestSpec` after its audiences.
spec fn spec_tail_fields(reference: Option<Reference>, expiration: u64) -> Seq<FieldView> {
    let number = FieldView { number: 4, value: ValueView::Varint(expiration) };
    match reference {
        None => seq![number],
        Some(r) => seq![bytes_field(3, reference_bytes(r)), number],
    }
}

proof fn lemma_spec_tail(reference: Option<Reference>, expiration: u64, depth: nat)
    requires
        depth > 0,
        reference matches Some(r) ==> reference_bytes(r).len() <= u64::MAX,
    ensures
        read_fields(
            match reference {
                None => Seq::empty(),
                Some(r) => ld_field(3, reference_bytes(r)),
            } + varint_field(4, expiration),
            Seq::empty(),
            depth,
        ) == Some(spec_tail_fields(reference, expiration)),
        well_laid(Layout::TokenRequestSpec, spec_tail_fields(reference, expiration), depth),
        all_bytes(spec_tail_fields(reference, expiration), 1) == Seq::<Seq<u8>>::empty(),
        all_bytes(spec_tail_fields(reference, expiration), 3) == match reference {
            None => Seq::<Seq<u8>>::empty(),
            Some(r) => seq![reference_bytes(r)],
        },
{
    let none = Seq::<u32>::empty();
    let layout = Layout::TokenRequestSpec;
    let number = FieldView { number: 4, value: ValueView::Varint(expiration) };
    let empty = Seq::<FieldView>::empty();
    let fields = spec_tail_fields(reference, expiration);
    law_varint_field_round_trip(4, expiration, none, depth);
    assert(well_laid(layout, empty, depth));
    assert(well_laid_field(layout, number, depth));
    assert(seq![number].drop_last() =~= empty);
    assert(all_bytes(empty, 1) =~= Seq::<Seq<u8>>::empty());
    assert(all_bytes(empty, 3) =~= Seq::<Seq<u8>>::empty());
    match reference {
        None => {
            assert(Seq::<u8>::empty() + varint_field(4, expiration) =~= varint_field(
                4,
                expiration,
            ));
            assert(all_bytes(fields, 1) =~= Seq::<Seq<u8>>::empty());
            assert(all_bytes(fields, 3) =~= Seq::<Seq<u8>>::empty());
        },
        Some(r) => {
            let p = reference_bytes(r);
            let f = bytes_field(3, p);
            lemma_reference(r, (depth - 1) as nat);
            law_ld_field_prefix(3, p, varint_field(4, expiration), none, depth);
            assert(seq![f] + seq![number] =~= fields);
            assert(fields.drop_last() =~= seq![f]);
            assert(seq![f].drop_last() =~= empty);
            assert(Layout::BoundObjectReference.spec_maps() =~= none);
            assert(well_laid_field(layout, f, depth));
            assert(well_laid(layout, seq![f], depth));
            assert(all_bytes(seq![f], 1) =~= Seq::<Seq<u8>>::empty());
            assert(all_bytes(seq![f], 3) =~= seq![p]);
            assert(all_bytes(fields, 1) =~= Seq::<Seq<u8>>::empty());
            assert(all_bytes(fields, 3) =~= seq![p]);
        },
    }
}

/// What a token request was made from is what is decoded from it: all
/// audiences in order, the lifetime where it is positive, and the object that
/// the token is bound to.
pub proof fn law_token_request_round_trip(
    audiences: Seq<Seq<char>>,
    reference: Option<Reference>,
    expiration: u64,
)
    requires
        spec_bytes(audiences, reference, expiration).len() <= u64::MAX,
    ensures
        read_token_request(ld_field(2, spec_bytes(audiences, reference, expiration))) == Some(
            TokenRequestView {
                audiences,
                expiration_seconds: if 0 < expiration < 0x8000_0000_0000_0000 {
                    Some(expiration)
                } else {
                    None
                },
                bound_object_ref: match reference {
                    None => None,
                    Some(r) => Some(
                        JsonView::Object(
                            seq![
                                ("apiVersion"@, JsonView::Str(r.api_version)),
                                ("kind"@, JsonView::Str(r.kind)),
                                ("name"@, JsonView::Str(r.name)),
                                ("uid"@, JsonView::Str(r.uid)),
                            ],
                        ),
                    ),
                },
            },
        ),
{
    let none = Seq::<u32>::empty();
    let depth = RECURSION_LIMIT as nat;
    let spec = spec_bytes(audiences, reference, expiration);
    let inner = audience_fields(audiences) + spec_tail_fields(reference, expiration);
    lemma_spec_fields(audiences, reference, expiration, (RECURSION_LIMIT - 1) as nat);
    lemma_spec_parts(audiences, reference, expiration);
    lemma_one_field(2, spec, depth);
    assert(Layout::TokenRequest.spec_maps() =~= none);
    assert(Layout::TokenRequestSpec.spec_maps() =~= none);
    lemma_single_spec(spec, inner);
    if let Some(r) = reference {
        lemma_single_reference(r, (RECURSION_LIMIT - 2) as nat);
    }
}

proof fn lemma_spec_fields(
    audiences: Seq<Seq<char>>,
    reference: Option<Reference>,
    expiration: u64,
    depth: nat,
)
    requires
        depth > 0,
        spec_bytes(audiences, reference, expiration).len() <= u64::MAX,
    ensures
        read_fields(spec_bytes(audiences, reference, expiration), Seq::empty(), depth) == Some(
            audience_fields(audiences) + spec_tail_fields(reference, expiration),
        ),
        well_laid(
            Layout::TokenRequestSpec,
            audience_fields(audiences) + spec_tail_fields(reference, expiration),
            depth,
        ),
{
    let head = audience_fields(audiences);
    let tail = spec_tail_fields(reference, expiration);
    lemma_audience_bytes(audiences, depth);
    lemma_audience_fields(audiences, depth);
    lemma_spec_tail(reference, expiration, depth);
    law_fields_of_concatenation(
        audience_bytes(audiences),
        match reference {
            None => Seq::empty(),
            Some(r) => ld_field(3, reference_bytes(r)),
        } + varint_field(4, expiration),
        Seq::empty(),
        depth,
    );
    lemma_well_laid_concat(Layout::TokenRequestSpec, head, tail, depth);
}

proof fn lemma_spec_parts(
    audiences: Seq<Seq<char>>,
    reference: Option<Reference>,
    expiration: u64,
)
    requires
        spec_bytes(audiences, reference, expiration).len() <= u64::MAX,
    ensures
        ({
            let inner = audience_fields(audiences) + spec_tail_fields(reference, expiration);
            &&& texts_of(inner, 1) == audiences
            &&& last_varint(inner, 4) == Some(expiration)
            &&& all_bytes(inner, 3) == match reference {
                None => Seq::<Seq<u8>>::empty(),
                Some(r) => seq![reference_bytes(r)],
            }
        }),
{
    let head = audience_fields(audiences);
    let tail = spec_tail_fields(reference, expiration);
    let inner = head + tail;
    lemma_audience_fields(audiences, 1);
    lemma_spec_tail(reference, expiration, 1);
    lemma_all_bytes_concat(head, tail, 1);
    lemma_all_bytes_concat(head, tail, 3);
    assert(all_bytes(inner, 1) =~= all_bytes(head, 1));
    assert(texts_of(inner, 1) =~= texts_of(head, 1));
    assert(all_bytes(inner, 3) =~= all_bytes(tail, 3));
    assert(inner.last() == tail.last());
}

proof fn lemma_single_reference(r: Reference, depth: nat)
    requires
        reference_bytes(r).len() <= u64::MAX,
    ensures
        bound_object(
            merged_fields(
                seq![reference_bytes(r)],
                Layout::BoundObjectReference.spec_maps(),
                depth,
            ),
        ) == JsonView::Object(
            seq![
                ("apiVersion"@, JsonView::Str(r.api_version)),
                ("kind"@, JsonView::Str(r.kind)),
                ("name"@, JsonView::Str(r.name)),
                ("uid"@, JsonView::Str(r.uid)),
            ],
        ),
{
    let none = Seq::<u32>::empty();
    let p = reference_bytes(r);
    lemma_reference(r, depth);
    assert(Layout::BoundObjectReference.spec_maps() =~= none);
    assert(seq![p].drop_last() =~= Seq::<Seq<u8>>::empty());
    assert(merged_fields(Seq::empty(), none, depth) =~= Seq::<FieldView>::empty());
    assert(merged_fields(seq![p], none, depth) =~= read_fields(p, none, depth)->0);
}

proof fn lemma_single_spec(spec: Seq<u8>, inner: Seq<FieldView>)
    requires
        read_fields(spec, Seq::empty(), (RECURSION_LIMIT - 1) as nat) == Some(inner),
        well_laid(Layout::TokenRequestSpec, inner, (RECURSION_LIMIT - 1) as nat),
    ensures
        well_laid(Layout::TokenRequest, seq![bytes_field(2, spec)], RECURSION_LIMIT as nat),
        all_bytes(seq![bytes_field(2, spec)], 2) == seq![spec],
        merged_fields(seq![spec], Seq::empty(), (RECURSION_LIMIT - 1) as nat) == inner,
{
    let none = Seq::<u32>::empty();
    let below = (RECURSION_LIMIT - 1) as nat;
    let f = bytes_field(2, spec);
    assert(Layout::TokenRequestSpec.spec_maps() =~= none);
    assert(seq![f].drop_last() =~= Seq::<FieldView>::empty());
    assert(well_laid(Layout::TokenRequest, Seq::empty(), RECURSION_LIMIT as nat));
    assert(well_laid_field(Layout::TokenRequest, f, RECURSION_LIMIT as nat));
    assert(all_bytes(Seq::<FieldView>::empty(), 2) =~= Seq::<Seq<u8>>::empty());
    assert(all_bytes(seq![f], 2) =~= seq![spec]);
    assert(seq![spec].drop_last() =~= Seq::<Seq<u8>>::empty());
    assert(merged_fields(Seq::empty(), none, below) =~= Seq::<FieldView>::empty());
    assert(merged_fields(seq![spec], none, below) =~= inner);
}

/// Which bodies are token requests: those that are well-formed, whose metadata
/// is object metadata with maps of labels and annotations, and whose spec and
/// status hold to their layouts. A malformed body is refused.
pub proof fn law_token_request_is_accepted_exactly(raw: Seq<u8>)
    ensures
        read_token_request(raw) is Some <==> (read_fields(raw, Seq::empty(), 100) matches Some(
            fields,
        ) && forall|i: int|
            0 <= i < fields.len() ==> {
                let f = #[trigger] fields[i];
                &&& f.number == 1 ==> embeds(f, Layout::ObjectMeta, seq![11u32, 12u32], 100)
                &&& f.number == 2 ==> embeds(f, Layout::TokenRequestSpec, Seq::empty(), 100)
                &&& f.number == 3 ==> embeds(f, Layout::TokenRequestStatus, Seq::empty(), 100)
            }),
{
    assert(Layout::TokenRequest.spec_maps() =~= Seq::<u32>::empty());
    if let Some(fields) = read_fields(raw, Seq::empty(), 100) {
        law_token_request_layout(fields, 100);
    }
}

/// Whether a JSON value is the text of the last field with a number; the empty
/// text where there is none.
pub open spec fn shows_text(fields: Seq<FieldView>, number: u32, v: JsonView) -> bool {
    &&& forall|i: int| #[trigger]
        last_numbered(fields, number, i) && fields[i].value is Bytes ==> v == JsonView::Str(
            decode_utf8(fields[i].value->Bytes_0),
        )
    &&& (forall|k: int| 0 <= k < fields.len() ==> (#[trigger] fields[k]).number != number) ==> v
        == JsonView::Str(Seq::empty())
}

proof fn lemma_shows_text(fields: Seq<FieldView>, number: u32)
    ensures
        shows_text(fields, number, JsonView::Str(text_of(fields, number))),
{
    assert forall|i: int| #[trigger]
        last_numbered(fields, number, i) && fields[i].value is Bytes implies JsonView::Str(
        text_of(fields, number),
    ) == JsonView::Str(decode_utf8(fields[i].value->Bytes_0)) by {
        law_last_field_counts(fields, number, i);
    }
    if forall|k: int| 0 <= k < fields.len() ==> (#[trigger] fields[k]).number != number {
        law_absent_field_gives_nothing(fields, number);
    }
}

/// What a token request asks for, from the fields of its spec: the audiences in
/// order, the last lifetime where it is positive as a signed number, and the
/// bound object, where one was sent, with its four texts.
pub proof fn law_token_request_contents(
    raw: Seq<u8>,
    fields: Seq<FieldView>,
    spec_fields: Seq<FieldView>,
    reference: Seq<FieldView>,
)
    requires
        read_fields(raw, Seq::empty(), 100) == Some(fields),
        spec_fields == merged_fields(all_bytes(fields, 2), Seq::empty(), 99),
        reference == merged_fields(all_bytes(spec_fields, 3), Seq::empty(), 98),
        read_token_request(raw) is Some,
    ensures
        ({
            let t = read_token_request(raw)->0;
            let audiences = numbered(spec_fields, 1);
            &&& t.audiences.len() == audiences.len()
            &&& forall|i: int|
                0 <= i < audiences.len() ==> (
                (#[trigger] audiences[i]).value matches ValueView::Bytes(p) && t.audiences[i]
                    == decode_utf8(p))
            &&& forall|i: int| #[trigger]
                last_numbered(spec_fields, 4, i) ==> (
                spec_fields[i].value matches ValueView::Varint(v) && t.expiration_seconds == if 1
                    <= v <= 0x7fff_ffff_ffff_ffff {
                    Some(v)
                } else {
                    None
                })
            &&& (forall|k: int|
                0 <= k < spec_fields.len() ==> (#[trigger] spec_fields[k]).number != 4)
                ==> t.expiration_seconds is None
            &&& t.bound_object_ref is Some <==> exists|k: int|
                0 <= k < spec_fields.len() && (#[trigger] spec_fields[k]).number == 3
            &&& t.bound_object_ref matches Some(v) ==> {
                &&& v is Object
                &&& v->Object_0.len() == 4
                &&& v->Object_0[0].0 == "apiVersion"@ && shows_text(reference, 2, v->Object_0[0].1)
                &&& v->Object_0[1].0 == "kind"@ && shows_text(reference, 1, v->Object_0[1].1)
                &&& v->Object_0[2].0 == "name"@ && shows_text(reference, 3, v->Object_0[2].1)
                &&& v->Object_0[3].0 == "uid"@ && shows_text(reference, 4, v->Object_0[3].1)
            }
        }),
{
    let t = read_token_request(raw)->0;
    assert(Layout::TokenRequest.spec_maps() =~= Seq::<u32>::empty());
    assert(Layout::TokenRequestSpec.spec_maps() =~= Seq::<u32>::empty());
    assert(Layout::BoundObjectReference.spec_maps() =~= Seq::<u32>::empty());
    lemma_merged_well_laid(
        Layout::TokenRequest,
        fields,
        2,
        Layout::TokenRequestSpec,
        100,
    );
    law_token_request_spec_layout(spec_fields, 99);
    law_all_payloads_in_order(spec_fields, 1);
    law_all_payloads_in_order(spec_fields, 3);
    let audiences = numbered(spec_fields, 1);
    assert forall|i: int| 0 <= i < audiences.len() implies (
    (#[trigger] audiences[i]).value matches ValueView::Bytes(p) && t.audiences[i] == decode_utf8(
        p,
    )) by {
        assert(audiences[i].value == ValueView::Bytes(all_bytes(spec_fields, 1)[i]));
    }
    assert forall|i: int| #[trigger] last_numbered(spec_fields, 4, i) implies (
    spec_fields[i].value matches ValueView::Varint(v) && t.expiration_seconds == if 1 <= v
        <= 0x7fff_ffff_ffff_ffff {
        Some(v)
    } else {
        None
    }) by {
        law_last_field_counts(spec_fields, 4, i);
    }
    if forall|k: int| 0 <= k < spec_fields.len() ==> (#[trigger] spec_fields[k]).number != 4 {
        law_absent_field_gives_nothing(spec_fields, 4);
    }
    if exists|k: int| 0 <= k < spec_fields.len() && (#[trigger] spec_fields[k]).number == 3 {
        let k = choose|k: int|
            0 <= k < spec_fields.len() && (#[trigger] spec_fields[k]).number == 3;
        lemma_some_payload(spec_fields, 3, k);
    } else {
        law_absent_field_gives_nothing(spec_fields, 3);
    }
    lemma_shows_text(reference, 1);
    lemma_shows_text(reference, 2);
    lemma_shows_text(reference, 3);
    lemma_shows_text(reference, 4);
}

proof fn lemma_some_payload(fields: Seq<FieldView>, number: u32, k: int)
    requires
        0 <= k < fields.len(),
        fields[k].number == number,
        fields[k].value is Bytes,
    ensures
        all_bytes(fields, number).len() > 0,
    decreases fields.len(),
{
    if k < fields.len() - 1 {
        lemma_some_payload(fields.drop_last(), number, k);
    }
}

/// What a token request asks for depends on its spec alone: two requests with the
/// same specs ask for the same, whatever else they carry.
pub proof fn law_only_the_spec_counts(
    a: Seq<u8>,
    b: Seq<u8>,
    a_fields: Seq<FieldView>,
    b_fields: Seq<FieldView>,
)
    requires
        read_fields(a, Seq::empty(), 100) == Some(a_fields),
        read_fields(b, Seq::empty(), 100) == Some(b_fields),
        numbered(a_fields, 2) == numbered(b_fields, 2),
        read_token_request(a) is Some,
        read_token_request(b) is Some,
    ensures
        read_token_request(a) == read_token_request(b),
{
    assert(Layout::TokenRequest.spec_maps() =~= Seq::<u32>::empty());
    law_numbers_are_independent(a_fields, 2);
    law_numbers_are_independent(b_fields, 2);
}

/// Metadata in front of a spec changes nothing: the audiences, the lifetime and
/// the bound object are those of the spec on its own, whatever the metadata.
pub proof fn law_metadata_makes_no_difference(
    metadata: Seq<u8>,
    audiences: Seq<Seq<char>>,
    reference: Option<Reference>,
    expiration: u64,
)
    requires
        metadata.len() <= u64::MAX,
        read_fields(metadata, seq![11u32, 12u32], 99) matches Some(fs) && well_laid(
            Layout::ObjectMeta,
            fs,
            99,
        ),
        spec_bytes(audiences, reference, expiration).len() <= u64::MAX,
    ensures
        read_token_request(
            ld_field(1, metadata) + ld_field(2, spec_bytes(audiences, reference, expiration)),
        ) == read_token_request(ld_field(2, spec_bytes(audiences, reference, expiration))),
        read_token_request(
            ld_field(1, metadata) + ld_field(2, spec_bytes(audiences, reference, expiration)),
        ) matches Some(t) && t.audiences == audiences && t.expiration_seconds == if 1 <= expiration
            <= 0x7fff_ffff_ffff_ffff {
            Some(expiration)
        } else {
            None
        } && (t.bound_object_ref is Some <==> reference is Some),
{
    law_token_request_round_trip(audiences, reference, expiration);
    lemma_spec_fields(audiences, reference, expiration, 99);
    lemma_metadata_before_spec(metadata, spec_bytes(audiences, reference, expiration));
}

proof fn lemma_metadata_before_spec(metadata: Seq<u8>, spec: Seq<u8>)
    requires
        metadata.len() <= u64::MAX,
        spec.len() <= u64::MAX,
        read_fields(metadata, seq![11u32, 12u32], 99) matches Some(fs) && well_laid(
            Layout::ObjectMeta,
            fs,
            99,
        ),
        read_fields(spec, Seq::empty(), 99) matches Some(fs) && well_laid(
            Layout::TokenRequestSpec,
            fs,
            99,
        ),
    ensures
        read_token_request(ld_field(1, metadata) + ld_field(2, spec)) == read_token_request(
            ld_field(2, spec),
        ),
{
    let f1 = bytes_field(1, metadata);
    let f2 = bytes_field(2, spec);
    let alone = seq![f2];
    let both = seq![f1, f2];
    assert(Layout::TokenRequest.spec_maps() =~= Seq::<u32>::empty());
    lemma_one_field(2, spec, 100);
    law_ld_field_prefix(1, metadata, ld_field(2, spec), Seq::empty(), 100);
    assert(seq![f1] + alone =~= both);
    lemma_metadata_well_laid(f1, f2);
    lemma_all_bytes_concat(seq![f1], alone, 2);
    law_absent_field_gives_nothing(seq![f1], 2);
    assert(all_bytes(both, 2) =~= all_bytes(alone, 2));
    assert(token_request_of(both) == token_request_of(alone));
}

proof fn lemma_metadata_well_laid(f1: FieldView, f2: FieldView)
    requires
        f1.number == 1,
        f2.number == 2,
        embeds(f1, Layout::ObjectMeta, seq![11u32, 12u32], 100),
        embeds(f2, Layout::TokenRequestSpec, Seq::empty(), 100),
    ensures
        well_laid(Layout::TokenRequest, seq![f1, f2], 100),
        well_laid(Layout::TokenRequest, seq![f2], 100),
{
    law_token_request_layout(seq![f1, f2], 100);
    law_token_request_layout(seq![f2], 100);
}

} // verus!

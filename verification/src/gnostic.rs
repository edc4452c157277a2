//! The minimal gnostic `openapi_v2.Document`.
use crate::envelope::{bytes_field, law_type_meta_fields};
use crate::fields::read_fields;
use crate::wire::{
    encode_ld_field, encode_varint, law_varint_length, ld_field, push_bytes, varint_bytes,
};
use vstd::prelude::*;

verus! {

/// Encodes a varint of a gnostic message.
pub fn gnostic_varint(v: u64) -> (out: Vec<u8>)
    ensures
        out@ == varint_bytes(v as nat),
{
    encode_varint(v)
}

/// Encodes a length-delimited field of a gnostic message.
pub fn gnostic_ld_field(field_number: u64, payload: &[u8]) -> (out: Vec<u8>)
    ensures
        out@ == ld_field(field_number as nat, payload@),
{
    encode_ld_field(field_number, payload)
}

/// The document: `swagger` "2.0" in field 1 and, in field 2, an `Info` with
/// title "u7s" and description "v1".
pub open spec fn gnostic_document() -> Seq<u8> {
    ld_field(1, seq![0x32u8, 0x2eu8, 0x30u8]) + ld_field(
        2,
        ld_field(1, seq![0x75u8, 0x37u8, 0x73u8]) + ld_field(2, seq![0x76u8, 0x31u8]),
    )
}

/// Encodes the smallest document that kubectl accepts. The bytes are the bare
/// message: they are not wrapped in an envelope.
pub fn encode_gnostic_openapi_v2_document() -> (out: Vec<u8>)
    ensures
        out@ == gnostic_document(),
{
    let title: [u8; 3] = [0x75, 0x37, 0x73];
    let description: [u8; 2] = [0x76, 0x31];
    let swagger: [u8; 3] = [0x32, 0x2e, 0x30];
    assert(title@ =~= seq![0x75u8, 0x37u8, 0x73u8]);
    assert(description@ =~= seq![0x76u8, 0x31u8]);
    assert(swagger@ =~= seq![0x32u8, 0x2eu8, 0x30u8]);
    let mut info = gnostic_ld_field(1, &title);
    let second = gnostic_ld_field(2, &description);
    push_bytes(&mut info, second.as_slice());
    let mut doc = gnostic_ld_field(1, &swagger);
    let tail = gnostic_ld_field(2, info.as_slice());
    push_bytes(&mut doc, tail.as_slice());
    doc
}

/// The document has two fields, the swagger version and the info, and the info
/// has two, title and description; all are length-delimited.
#[verifier::rlimit(40)]
pub proof fn law_gnostic_document_fields(depth: nat)
    ensures
        ({
            let info = ld_field(1, seq![0x75u8, 0x37u8, 0x73u8]) + ld_field(
                2,
                seq![0x76u8, 0x31u8],
            );
            &&& read_fields(gnostic_document(), Seq::empty(), depth) == Some(
                seq![bytes_field(1, seq![0x32u8, 0x2eu8, 0x30u8]), bytes_field(2, info)],
            )
            &&& read_fields(info, Seq::empty(), depth) == Some(
                seq![
                    bytes_field(1, seq![0x75u8, 0x37u8, 0x73u8]),
                    bytes_field(2, seq![0x76u8, 0x31u8]),
                ],
            )
        }),
{
    let title = seq![0x75u8, 0x37u8, 0x73u8];
    let description = seq![0x76u8, 0x31u8];
    let swagger = seq![0x32u8, 0x2eu8, 0x30u8];
    let info = ld_field(1, title) + ld_field(2, description);
    lemma_ld_field_is_short(1, title);
    lemma_ld_field_is_short(2, description);
    law_type_meta_fields(title, description, depth);
    law_type_meta_fields(swagger, info, depth);
}

/// Key and length of a written field take ten bytes each at most.
proof fn lemma_ld_field_is_short(number: nat, payload: Seq<u8>)
    requires
        number < 0x2000_0000,
        payload.len() <= u64::MAX,
    ensures
        ld_field(number, payload).len() <= payload.len() + 20,
{
    law_varint_length((number * 8 + 2) as u64);
    law_varint_length(payload.len() as u64);
}

} // verus!

//! The protobuf wire format: varints, field keys, length-delimited values,
//! groups, and the split of a message body into its fields.
use vstd::prelude::*;
use vstd::slice::slice_subrange;

verus! {

/// How deep messages and groups may nest inside a message body.
pub const RECURSION_LIMIT: u32 = 100;

/// The base-128 encoding of `v`: seven bits a byte, least significant first,
/// the high bit set on every byte but the last.
pub open spec fn varint_bytes(v: nat) -> Seq<u8>
    decreases v,
{
    if v < 128 {
        seq![v as u8]
    } else {
        seq![(v % 128 + 128) as u8] + varint_bytes(v / 128)
    }
}

/// The varint whose byte number `i` stands at the front of `b`: its value, and
/// how many bytes of `b` it takes. A varint has at most ten bytes and a value
/// below 2^64.
pub open spec fn read_varint(b: Seq<u8>, i: nat) -> Option<(nat, nat)>
    decreases b.len(),
{
    if i >= 10 || b.len() == 0 {
        None
    } else if b[0] < 128 {
        if i == 9 && b[0] >= 2 {
            None
        } else {
            Some((b[0] as nat, 1))
        }
    } else {
        match read_varint(b.skip(1), i + 1) {
            None => None,
            Some((v, n)) => Some(((b[0] - 128 + 128 * v) as nat, n + 1)),
        }
    }
}

/// One more than the largest value that the bytes from number `i` on can hold.
pub open spec fn varint_cap(i: nat) -> nat
    decreases 10 - i,
{
    if i >= 9 {
        2
    } else {
        128 * varint_cap(i + 1)
    }
}

pub proof fn lemma_varint_cap()
    ensures
        varint_cap(0) == 0x1_0000_0000_0000_0000,
{
    reveal_with_fuel(varint_cap, 11);
}

/// What is read lies within the bytes and below the cap.
pub proof fn lemma_read_varint_bounds(b: Seq<u8>, i: nat)
    ensures
        read_varint(b, i) matches Some((v, n)) ==> 1 <= n <= b.len() && n + i <= 10 && v
            < varint_cap(i),
    decreases b.len(),
{
    if i < 10 && b.len() > 0 {
        if b[0] < 128 {
            lemma_cap_at_least_128(i);
        } else {
            lemma_read_varint_bounds(b.skip(1), i + 1);
        }
    }
}

proof fn lemma_cap_at_least_128(i: nat)
    requires
        i < 10,
    ensures
        i < 9 ==> varint_cap(i) >= 128,
        varint_cap(i) >= 2,
    decreases 10 - i,
{
    if i < 9 {
        lemma_cap_at_least_128(i + 1);
    }
}

/// Reading gives back what was written, and stops where the writing stopped.
pub proof fn lemma_varint_round_trip(v: nat, i: nat, rest: Seq<u8>)
    requires
        i < 10,
        v < varint_cap(i),
    ensures
        read_varint(varint_bytes(v) + rest, i) == Some((v, varint_bytes(v).len())),
        varint_bytes(v).len() >= 1,
    decreases v,
{
    let b = varint_bytes(v) + rest;
    if v < 128 {
        assert(b[0] == v as u8);
    } else {
        assert(i < 9);
        lemma_varint_round_trip(v / 128, i + 1, rest);
        assert(b[0] == (v % 128 + 128) as u8);
        assert(b.skip(1) =~= varint_bytes(v / 128) + rest);
    }
}

/// Every `u64` comes back from its varint, whatever follows it.
pub proof fn law_varint_round_trip(v: u64, rest: Seq<u8>)
    ensures
        read_varint(varint_bytes(v as nat) + rest, 0) == Some(
            (v as nat, varint_bytes(v as nat).len()),
        ),
{
    lemma_varint_cap();
    lemma_varint_round_trip(v as nat, 0, rest);
}

/// A `u64` takes between one and ten bytes as a varint.
pub proof fn law_varint_length(v: u64)
    ensures
        1 <= varint_bytes(v as nat).len() <= 10,
{
    law_varint_round_trip(v, Seq::empty());
    lemma_read_varint_bounds(varint_bytes(v as nat) + Seq::<u8>::empty(), 0);
}

/// Encodes `v` as a varint.
pub fn encode_varint(v: u64) -> (out: Vec<u8>)
    ensures
        out@ == varint_bytes(v as nat),
{
    let mut out: Vec<u8> = Vec::new();
    let mut rest: u64 = v;
    while rest >= 128
        invariant
            out@ + varint_bytes(rest as nat) =~= varint_bytes(v as nat),
        decreases rest,
    {
        out.push((rest % 128 + 128) as u8);
        rest = rest / 128;
    }
    out.push(rest as u8);
    out
}

/// The bytes of a length-delimited field: the key with wire type 2, the length
/// of the payload, the payload. The key keeps 64 bits of the shifted number.
pub open spec fn ld_field(number: nat, payload: Seq<u8>) -> Seq<u8> {
    varint_bytes((number * 8) % 0x1_0000_0000_0000_0000 + 2) + varint_bytes(payload.len())
        + payload
}

/// Appends all bytes of a slice.
pub(crate) fn push_bytes(out: &mut Vec<u8>, bytes: &[u8])
    ensures
        final(out)@ == old(out)@ + bytes@,
{
    out.extend_from_slice(bytes);
    assert(out@ =~= old(out)@ + bytes@);
}

/// Encodes a length-delimited field: key, payload length, payload.
pub fn encode_ld_field(field_number: u64, payload: &[u8]) -> (out: Vec<u8>)
    ensures
        out@ == ld_field(field_number as nat, payload@),
{
    let tag: u64 = (field_number << 3) | 2;
    assert(tag == (field_number % 0x2000_0000_0000_0000) * 8 + 2) by (bit_vector)
        requires
            tag == (field_number << 3) | 2,
    ;
    assert((field_number * 8) % 0x1_0000_0000_0000_0000 == (field_number % 0x2000_0000_0000_0000)
        * 8) by (nonlinear_arith);
    let mut out = encode_varint(tag);
    let len = encode_varint(payload.len() as u64);
    push_bytes(&mut out, len.as_slice());
    push_bytes(&mut out, payload);
    out
}

/// The varint at the front of `b` where the bits from 64 on are dropped; byte
/// number `i` is the first of `b`, and a varint has at most ten bytes.
pub open spec fn read_varint_truncating(b: Seq<u8>, i: nat) -> Option<(nat, nat)>
    decreases b.len(),
{
    if i >= 10 || b.len() == 0 {
        None
    } else if b[0] < 128 {
        Some((b[0] as nat, 1))
    } else {
        match read_varint_truncating(b.skip(1), i + 1) {
            None => None,
            Some((v, n)) => Some(
                (((b[0] - 128 + 128 * v) % 0x1_0000_0000_0000_0000) as nat, n + 1),
            ),
        }
    }
}

fn decode_varint_from(data: &[u8], i: u32) -> (r: Option<(u64, &[u8])>)
    requires
        i <= 10,
    ensures
        match read_varint_truncating(data@, i as nat) {
            None => r is None,
            Some((v, n)) => r matches Some((value, rest)) && value == v && 1 <= n <= data@.len()
                && rest@ == data@.skip(n as int),
        },
    decreases data@.len(),
{
    if i >= 10 || data.len() == 0 {
        return None;
    }
    let byte: u8 = data[0];
    let tail = slice_subrange(data, 1, data.len());
    assert(tail@ =~= data@.skip(1));
    if byte < 128 {
        return Some((byte as u64, tail));
    }
    match decode_varint_from(tail, i + 1) {
        None => None,
        Some((high, rest)) => {
            let low: u64 = (byte - 128) as u64;
            let value: u64 = (high << 7) | low;
            assert(value == (high % 0x200_0000_0000_0000) * 128 + low) by (bit_vector)
                requires
                    value == (high << 7) | low,
                    low < 128,
            ;
            assert((low + 128 * high) % 0x1_0000_0000_0000_0000 == (high % 0x200_0000_0000_0000)
                * 128 + low) by (nonlinear_arith)
                requires
                    low < 128,
            ;
            proof {
                if let Some((v, n)) = read_varint_truncating(data@.skip(1), (i + 1) as nat) {
                    assert(rest@ =~= data@.skip(n as int + 1));
                }
            }
            Some((value, rest))
        },
    }
}

/// Decodes a varint from the front of `data` and returns it with what follows.
/// Bits from 64 on are dropped; an eleventh byte is refused.
pub fn decode_varint(data: &[u8]) -> (r: Option<(u64, &[u8])>)
    ensures
        match read_varint_truncating(data@, 0) {
            None => r is None,
            Some((v, n)) => r matches Some((value, rest)) && value == v && rest@ == data@.skip(
                n as int,
            ),
        },
{
    decode_varint_from(data, 0)
}

/// Where the strict reading succeeds, the truncating one reads the same.
pub proof fn law_varint_readings_agree(b: Seq<u8>, i: nat)
    ensures
        read_varint(b, i) is Some ==> read_varint_truncating(b, i) == read_varint(b, i),
    decreases b.len(),
{
    if i < 10 && b.len() > 0 && b[0] >= 128 {
        law_varint_readings_agree(b.skip(1), i + 1);
        lemma_read_varint_bounds(b, i);
        lemma_varint_cap();
        lemma_cap_decreases(i);
    }
}

/// Decoding gives back what was encoded, and what followed it.
pub proof fn law_decoding_inverts_encoding(v: u64, rest: Seq<u8>)
    ensures
        read_varint_truncating(varint_bytes(v as nat) + rest, 0) == Some(
            (v as nat, varint_bytes(v as nat).len()),
        ),
        (varint_bytes(v as nat) + rest).skip(varint_bytes(v as nat).len() as int) == rest,
{
    law_varint_round_trip(v, rest);
    law_varint_readings_agree(varint_bytes(v as nat) + rest, 0);
    assert((varint_bytes(v as nat) + rest).skip(varint_bytes(v as nat).len() as int) =~= rest);
}

proof fn lemma_cap_decreases(i: nat)
    ensures
        varint_cap(i) <= varint_cap(0),
    decreases i,
{
    if i > 0 {
        lemma_cap_decreases((i - 1) as nat);
    }
}

/// The bytes of a varint: the last one is below 128 and the others are not, there
/// are no more than are needed, and each carries seven bits, the lowest first.
pub proof fn law_varint_bytes(v: nat)
    ensures
        ({
            let b = varint_bytes(v);
            &&& b.len() >= 1
            &&& b.last() < 128
            &&& b.len() > 1 ==> b.last() > 0
            &&& forall|i: int| 0 <= i < b.len() - 1 ==> #[trigger] b[i] >= 128
            &&& b[0] % 128 == v % 128
            &&& b.len() > 1 ==> b.skip(1) == varint_bytes(v / 128)
        }),
    decreases v,
{
    if v >= 128 {
        law_varint_bytes(v / 128);
        let b = varint_bytes(v);
        let rest = varint_bytes(v / 128);
        assert(b.skip(1) =~= rest);
        assert(b.last() == rest.last());
        assert forall|i: int| 0 <= i < b.len() - 1 implies #[trigger] b[i] >= 128 by {
            if i > 0 {
                assert(b[i] == rest[i - 1]);
            }
        }
    }
}

/// A varint is read up to its first byte below 128, with seven bits from each
/// byte, the lowest first, also where the bytes are more than needed. Ten bytes
/// are the most, and the tenth has one bit.
pub proof fn law_varint_is_read_to_its_end(b: Seq<u8>)
    ensures
        b.len() == 0 ==> read_varint(b, 0) is None,
        b.len() > 0 && b[0] < 128 ==> read_varint(b, 0) == Some((b[0] as nat, 1nat)),
        forall|i: nat|
            b.len() > 0 && b[0] >= 128 && i < 9 ==> (#[trigger] read_varint(b, i))
                == match read_varint(b.skip(1), i + 1) {
                None => None,
                Some((v, n)) => Some(((b[0] - 128 + 128 * v) as nat, n + 1)),
            },
        b.len() > 0 ==> (read_varint(b, 9) is Some <==> b[0] <= 1),
{
    assert(read_varint(b.skip(1), 10) is None);
}

/// A varint whose bits from 64 on are dropped is read up to its first byte below
/// 128, with seven bits from each byte, and has at most ten bytes.
pub proof fn law_truncated_varint_is_read_to_its_end(b: Seq<u8>)
    ensures
        b.len() == 0 ==> read_varint_truncating(b, 0) is None,
        b.len() > 0 && b[0] < 128 ==> forall|i: nat|
            i < 10 ==> (#[trigger] read_varint_truncating(b, i)) == Some((b[0] as nat, 1nat)),
        b.len() > 0 && b[0] >= 128 ==> forall|i: nat|
            i < 10 ==> (#[trigger] read_varint_truncating(
                b,
                i,
            )) == match read_varint_truncating(b.skip(1), i + 1) {
                None => None,
                Some((v, n)) => Some(
                    (((b[0] - 128 + 128 * v) % 0x1_0000_0000_0000_0000) as nat, n + 1),
                ),
            },
        read_varint_truncating(b, 10) is None,
{
}

/// A length-delimited field is its key, eight times the number and two, the
/// length of its payload, and the payload as it is.
pub proof fn law_ld_field_bytes(number: nat, payload: Seq<u8>)
    requires
        number < 0x2000_0000_0000_0000,
    ensures
        ld_field(number, payload) == varint_bytes(8 * number + 2) + varint_bytes(payload.len())
            + payload,
{
}

} // verus!

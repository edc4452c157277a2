//! The fields of a message body: reading keys and values, stepping over
//! groups, and picking values out by field number.
use crate::wire::{
    law_varint_length, law_varint_round_trip, ld_field, lemma_read_varint_bounds, lemma_varint_cap,
    read_varint, varint_bytes,
};
use vstd::prelude::*;
use vstd::slice::slice_subrange;

verus! {

/// Wire type of a varint.
pub const WIRE_VARINT: u32 = 0;

/// Wire type of a value of eight bytes.
pub const WIRE_FIXED64: u32 = 1;

/// Wire type of a length-delimited value.
pub const WIRE_BYTES: u32 = 2;

/// Wire type that opens a group.
pub const WIRE_START_GROUP: u32 = 3;

/// Wire type that closes a group.
pub const WIRE_END_GROUP: u32 = 4;

/// Wire type of a value of four bytes.
pub const WIRE_FIXED32: u32 = 5;

/// What a field carries, as its model.
pub enum ValueView {
    Varint(u64),
    Fixed64(u64),
    Bytes(Seq<u8>),
    Group,
    Fixed32(u32),
}

/// A field of a message body, as its model.
pub struct FieldView {
    pub number: u32,
    pub value: ValueView,
}

/// What a field carries. Length-delimited payloads are borrowed from the body.
#[derive(Clone, Copy)]
pub enum WireValue<'a> {
    Varint(u64),
    Fixed64(u64),
    Bytes(&'a [u8]),
    Group,
    Fixed32(u32),
}

/// A field of a message body.
#[derive(Clone, Copy)]
pub struct WireField<'a> {
    pub number: u32,
    pub value: WireValue<'a>,
}

impl<'a> View for WireField<'a> {
    type V = FieldView;

    open spec fn view(&self) -> FieldView {
        FieldView {
            number: self.number,
            value: match self.value {
                WireValue::Varint(v) => ValueView::Varint(v),
                WireValue::Fixed64(v) => ValueView::Fixed64(v),
                WireValue::Bytes(p) => ValueView::Bytes(p@),
                WireValue::Group => ValueView::Group,
                WireValue::Fixed32(v) => ValueView::Fixed32(v),
            },
        }
    }
}

/// The models of a sequence of fields.
pub open spec fn views(fields: Seq<WireField>) -> Seq<FieldView> {
    Seq::new(fields.len(), |i: int| fields[i]@)
}

/// The field key at the front of `b`: field number, wire type, and how many
/// bytes it takes. Keys beyond 32 bits, wire types 6 and 7 and field number 0
/// are refused.
pub open spec fn read_key(b: Seq<u8>) -> Option<(u32, u32, nat)> {
    match read_varint(b, 0) {
        None => None,
        Some((key, n)) => if key > u32::MAX || key % 8 > 5 || key / 8 == 0 {
            None
        } else {
            Some(((key / 8) as u32, (key % 8) as u32, n))
        },
    }
}

/// The length-delimited value at the front of `b`: its payload, and how many
/// bytes length and payload take.
pub open spec fn read_bytes(b: Seq<u8>) -> Option<(Seq<u8>, nat)> {
    match read_varint(b, 0) {
        None => None,
        Some((len, n)) => if n + len > b.len() {
            None
        } else {
            Some((b.subrange(n as int, (n + len) as int), n + len))
        },
    }
}

/// The number in the four bytes at the front of `b`, the lowest byte first.
#[verifier::opaque]
pub open spec fn le32(b: Seq<u8>) -> nat {
    (b[0] + 0x100 * b[1] + 0x1_0000 * b[2] + 0x100_0000 * b[3]) as nat
}

/// The number in the eight bytes at the front of `b`, the lowest byte first.
#[verifier::opaque]
pub open spec fn le64(b: Seq<u8>) -> nat {
    le32(b) + 0x1_0000_0000 * le32(b.skip(4))
}

/// How many bytes at the front of `b` the value of a field takes that is
/// stepped over, `depth` levels above the recursion limit.
pub open spec fn skip_len(b: Seq<u8>, number: u32, wire_type: u32, depth: nat) -> Option<nat>
    decreases depth, b.len(), 1nat,
{
    if depth == 0 {
        None
    } else if wire_type == WIRE_VARINT {
        match read_varint(b, 0) {
            None => None,
            Some((v, n)) => Some(n),
        }
    } else if wire_type == WIRE_FIXED64 {
        if b.len() < 8 {
            None
        } else {
            Some(8)
        }
    } else if wire_type == WIRE_BYTES {
        match read_bytes(b) {
            None => None,
            Some((p, n)) => Some(n),
        }
    } else if wire_type == WIRE_START_GROUP {
        group_len(b, number, depth)
    } else if wire_type == WIRE_FIXED32 {
        if b.len() < 4 {
            None
        } else {
            Some(4)
        }
    } else {
        None
    }
}

/// How many bytes at the front of `b` the fields of group `number` take,
/// together with the key that closes the group.
pub open spec fn group_len(b: Seq<u8>, number: u32, depth: nat) -> Option<nat>
    decreases depth, b.len(), 0nat,
{
    if depth == 0 {
        None
    } else {
        match read_key(b) {
            None => None,
            Some((inner, wire_type, n)) => if wire_type == WIRE_END_GROUP {
                if inner == number {
                    Some(n)
                } else {
                    None
                }
            } else {
                match skip_len(b.skip(n as int), inner, wire_type, (depth - 1) as nat) {
                    None => None,
                    Some(m) => if n == 0 || n + m > b.len() {
                        None
                    } else {
                        match group_len(b.skip((n + m) as int), number, depth) {
                            None => None,
                            Some(k) => Some(n + m + k),
                        }
                    },
                }
            },
        }
    }
}

/// The field at the front of `b`, and how many bytes it takes. The numbers in
/// `delimited` carry a length-delimited value whatever their wire type says.
pub open spec fn read_field(b: Seq<u8>, delimited: Seq<u32>, depth: nat) -> Option<
    (FieldView, nat),
> {
    match read_key(b) {
        None => None,
        Some((number, wire_type, n)) => {
            let rest = b.skip(n as int);
            if delimited.contains(number) || wire_type == WIRE_BYTES {
                match read_bytes(rest) {
                    None => None,
                    Some((p, m)) => Some((FieldView { number, value: ValueView::Bytes(p) }, n + m)),
                }
            } else if wire_type == WIRE_VARINT {
                match read_varint(rest, 0) {
                    None => None,
                    Some((v, m)) => Some(
                        (FieldView { number, value: ValueView::Varint(v as u64) }, n + m),
                    ),
                }
            } else if wire_type == WIRE_FIXED64 {
                if rest.len() < 8 {
                    None
                } else {
                    Some(
                        (FieldView { number, value: ValueView::Fixed64(le64(rest) as u64) }, n + 8),
                    )
                }
            } else if wire_type == WIRE_FIXED32 {
                if rest.len() < 4 {
                    None
                } else {
                    Some(
                        (FieldView { number, value: ValueView::Fixed32(le32(rest) as u32) }, n + 4),
                    )
                }
            } else if wire_type == WIRE_START_GROUP {
                match group_len(rest, number, depth) {
                    None => None,
                    Some(m) => Some((FieldView { number, value: ValueView::Group }, n + m)),
                }
            } else {
                None
            }
        },
    }
}

/// The fields of a message body in order; `None` where the body is malformed.
pub open spec fn read_fields(b: Seq<u8>, delimited: Seq<u32>, depth: nat) -> Option<Seq<FieldView>>
    decreases b.len(),
{
    if b.len() == 0 {
        Some(Seq::empty())
    } else {
        match read_field(b, delimited, depth) {
            None => None,
            Some((f, n)) => if n == 0 || n > b.len() {
                None
            } else {
                match read_fields(b.skip(n as int), delimited, depth) {
                    None => None,
                    Some(fs) => Some(seq![f] + fs),
                }
            },
        }
    }
}

proof fn lemma_skip_bounds(b: Seq<u8>, number: u32, wire_type: u32, depth: nat)
    ensures
        skip_len(b, number, wire_type, depth) matches Some(n) ==> n <= b.len(),
    decreases depth, b.len(), 1nat,
{
    lemma_read_varint_bounds(b, 0);
    if depth > 0 && wire_type == WIRE_START_GROUP {
        lemma_group_bounds(b, number, depth);
    }
}

proof fn lemma_group_bounds(b: Seq<u8>, number: u32, depth: nat)
    ensures
        group_len(b, number, depth) matches Some(n) ==> n <= b.len(),
    decreases depth, b.len(), 0nat,
{
    lemma_read_varint_bounds(b, 0);
    if depth > 0 {
        if let Some((inner, wire_type, n)) = read_key(b) {
            if wire_type != WIRE_END_GROUP {
                if let Some(m) = skip_len(b.skip(n as int), inner, wire_type, (depth - 1) as nat) {
                    if n > 0 && n + m <= b.len() {
                        lemma_group_bounds(b.skip((n + m) as int), number, depth);
                    }
                }
            }
        }
    }
}

/// `prost::encoding::decode_varint` on a slice: it reads the varint at the
/// front, refuses one that runs past the slice, past ten bytes or past 64 bits,
/// and leaves the slice at the byte after it.
#[verifier::external_body]
pub(crate) fn prost_varint(buf: &[u8]) -> (r: Option<(u64, &[u8])>)
    ensures
        match read_varint(buf@, 0) {
            None => r is None,
            Some((v, n)) => r matches Some((value, rest)) && value == v && rest@ == buf@.skip(
                n as int,
            ),
        },
{
    let mut rest = buf;
    match prost::encoding::decode_varint(&mut rest) {
        Ok(value) => Some((value, rest)),
        Err(_) => None,
    }
}

/// `prost::encoding::decode_key` on a slice: it reads a varint, refuses keys
/// beyond 32 bits, wire types above 5 and field number 0, and leaves the slice
/// at the byte after the key.
#[verifier::external_body]
fn prost_key(buf: &[u8]) -> (r: Option<(u32, u32, &[u8])>)
    ensures
        match read_key(buf@) {
            None => r is None,
            Some((number, wire_type, n)) => r matches Some((k, w, rest)) && k == number && w
                == wire_type && rest@ == buf@.skip(n as int),
        },
{
    let mut rest = buf;
    match prost::encoding::decode_key(&mut rest) {
        Ok((number, wire_type)) => Some((number, wire_type as u32, rest)),
        Err(_) => None,
    }
}

/// Takes the length-delimited value at the front of a slice.
fn take_bytes(buf: &[u8]) -> (r: Option<(&[u8], &[u8])>)
    ensures
        match read_bytes(buf@) {
            None => r is None,
            Some((p, n)) => r matches Some((payload, rest)) && payload@ == p && n <= buf@.len()
                && rest@ == buf@.skip(n as int),
        },
{
    proof {
        lemma_read_varint_bounds(buf@, 0);
    }
    match prost_varint(buf) {
        None => None,
        Some((len, rest)) => {
            if len > rest.len() as u64 {
                return None;
            }
            let payload = slice_subrange(rest, 0, len as usize);
            let tail = slice_subrange(rest, len as usize, rest.len());
            proof {
                if let Some((p, n)) = read_bytes(buf@) {
                    assert(payload@ =~= p);
                    assert(tail@ =~= buf@.skip(n as int));
                }
            }
            Some((payload, tail))
        },
    }
}

/// Steps over the first bytes of a slice, where it has that many.
fn drop_front(buf: &[u8], count: usize) -> (r: Option<&[u8]>)
    ensures
        r is Some <==> count <= buf@.len(),
        r matches Some(rest) ==> rest@ == buf@.skip(count as int),
{
    if buf.len() < count {
        return None;
    }
    let rest = slice_subrange(buf, count, buf.len());
    assert(rest@ =~= buf@.skip(count as int));
    Some(rest)
}

/// Takes the number in the four bytes at the front of a slice.
pub(crate) fn take_fixed32(buf: &[u8]) -> (r: Option<(u32, &[u8])>)
    ensures
        r is Some <==> 4 <= buf@.len(),
        r matches Some((value, rest)) ==> value == le32(buf@) && rest@ == buf@.skip(4),
{
    match drop_front(buf, 4) {
        None => None,
        Some(rest) => {
            reveal(le32);
            let value: u32 = buf[0] as u32 + 0x100 * (buf[1] as u32) + 0x1_0000 * (buf[2] as u32)
                + 0x100_0000 * (buf[3] as u32);
            Some((value, rest))
        },
    }
}

/// Takes the number in the eight bytes at the front of a slice.
pub(crate) fn take_fixed64(buf: &[u8]) -> (r: Option<(u64, &[u8])>)
    ensures
        r is Some <==> 8 <= buf@.len(),
        r matches Some((value, rest)) ==> value == le64(buf@) && rest@ == buf@.skip(8),
{
    match take_fixed32(buf) {
        None => None,
        Some((low, high_half)) => match take_fixed32(high_half) {
            None => None,
            Some((high, rest)) => {
                reveal(le64);
                assert(buf@.skip(4).skip(4) =~= buf@.skip(8));
                let value: u64 = low as u64 + 0x1_0000_0000 * (high as u64);
                Some((value, rest))
            },
        },
    }
}

/// Steps over the value of a field and returns what follows it. The depth is
/// the one that is left where the field stands; `prost::encoding::skip_field`
/// takes its depth from a context that only prost can count down.
fn skip_value(buf: &[u8], number: u32, wire_type: u32, depth: u32) -> (r: Option<&[u8]>)
    ensures
        match skip_len(buf@, number, wire_type, depth as nat) {
            None => r is None,
            Some(n) => r matches Some(rest) && n <= buf@.len() && rest@ == buf@.skip(n as int),
        },
    decreases depth, 1nat,
{
    proof {
        lemma_skip_bounds(buf@, number, wire_type, depth as nat);
    }
    if depth == 0 {
        None
    } else if wire_type == WIRE_VARINT {
        match prost_varint(buf) {
            None => None,
            Some((_, rest)) => Some(rest),
        }
    } else if wire_type == WIRE_FIXED64 {
        drop_front(buf, 8)
    } else if wire_type == WIRE_BYTES {
        match take_bytes(buf) {
            None => None,
            Some((_, rest)) => Some(rest),
        }
    } else if wire_type == WIRE_START_GROUP {
        skip_group(buf, number, depth)
    } else if wire_type == WIRE_FIXED32 {
        drop_front(buf, 4)
    } else {
        None
    }
}

/// Steps over the fields of a group and the key that closes it.
fn skip_group(buf: &[u8], number: u32, depth: u32) -> (r: Option<&[u8]>)
    ensures
        match group_len(buf@, number, depth as nat) {
            None => r is None,
            Some(n) => r matches Some(rest) && n <= buf@.len() && rest@ == buf@.skip(n as int),
        },
    decreases depth, 0nat,
{
    if depth == 0 {
        return None;
    }
    let mut rest = buf;
    let ghost mut done: nat = 0;
    assert(buf@.skip(0) =~= buf@);
    loop
        invariant
            depth > 0,
            done <= buf@.len(),
            rest@ == buf@.skip(done as int),
            match group_len(rest@, number, depth as nat) {
                None => group_len(buf@, number, depth as nat) is None,
                Some(k) => group_len(buf@, number, depth as nat) == Some(done + k),
            },
        decreases rest@.len(),
    {
        proof {
            lemma_group_bounds(rest@, number, depth as nat);
            lemma_read_varint_bounds(rest@, 0);
        }
        match prost_key(rest) {
            None => {
                return None;
            },
            Some((inner, wire_type, value)) => {
                if wire_type == WIRE_END_GROUP {
                    if inner == number {
                        proof {
                            if let Some((k, w, n)) = read_key(rest@) {
                                assert(value@ =~= buf@.skip((done + n) as int));
                            }
                        }
                        return Some(value);
                    }
                    return None;
                }
                match skip_value(value, inner, wire_type, depth - 1) {
                    None => {
                        return None;
                    },
                    Some(tail) => {
                        proof {
                            if let Some((k, w, n)) = read_key(rest@) {
                                if let Some(m) = skip_len(
                                    value@,
                                    inner,
                                    wire_type,
                                    (depth - 1) as nat,
                                ) {
                                    assert(tail@ =~= rest@.skip((n + m) as int));
                                    assert(tail@ =~= buf@.skip((done + n + m) as int));
                                    done = done + n + m;
                                }
                            }
                        }
                        rest = tail;
                    },
                }
            },
        }
    }
}

/// Whether a list of numbers holds `number`.
pub fn list_contains(list: &[u32], number: u32) -> (r: bool)
    ensures
        r == list@.contains(number),
{
    let mut i: usize = 0;
    while i < list.len()
        invariant
            i <= list@.len(),
            forall|j: int| 0 <= j < i ==> list@[j] != number,
        decreases list@.len() - i,
    {
        if list[i] == number {
            return true;
        }
        i += 1;
    }
    false
}

/// Takes the field at the front of a message body.
fn take_field<'a>(buf: &'a [u8], delimited: &[u32], depth: u32) -> (r: Option<
    (WireField<'a>, &'a [u8]),
>)
    ensures
        match read_field(buf@, delimited@, depth as nat) {
            None => r is None,
            Some((f, n)) => r matches Some((field, rest)) && field@ == f && 1 <= n <= buf@.len()
                && rest@ == buf@.skip(n as int),
        },
{
    proof {
        lemma_read_varint_bounds(buf@, 0);
    }
    match prost_key(buf) {
        None => None,
        Some((number, wire_type, rest)) => {
            let ghost n = match read_key(buf@) {
                Some((k, w, n)) => n,
                None => 0,
            };
            proof {
                lemma_read_varint_bounds(rest@, 0);
                lemma_varint_cap();
                lemma_group_bounds(rest@, number, depth as nat);
                assert forall|m: int| 0 <= m <= rest@.len() implies #[trigger] rest@.skip(m)
                    =~= buf@.skip(n + m) by {}
            }
            if list_contains(delimited, number) || wire_type == WIRE_BYTES {
                match take_bytes(rest) {
                    None => None,
                    Some((payload, tail)) => Some(
                        (WireField { number, value: WireValue::Bytes(payload) }, tail),
                    ),
                }
            } else if wire_type == WIRE_VARINT {
                match prost_varint(rest) {
                    None => None,
                    Some((value, tail)) => Some(
                        (WireField { number, value: WireValue::Varint(value) }, tail),
                    ),
                }
            } else if wire_type == WIRE_FIXED64 {
                match take_fixed64(rest) {
                    None => None,
                    Some((value, tail)) => Some(
                        (WireField { number, value: WireValue::Fixed64(value) }, tail),
                    ),
                }
            } else if wire_type == WIRE_FIXED32 {
                match take_fixed32(rest) {
                    None => None,
                    Some((value, tail)) => Some(
                        (WireField { number, value: WireValue::Fixed32(value) }, tail),
                    ),
                }
            } else if wire_type == WIRE_START_GROUP {
                match skip_group(rest, number, depth) {
                    None => None,
                    Some(tail) => Some((WireField { number, value: WireValue::Group }, tail)),
                }
            } else {
                None
            }
        },
    }
}

/// Splits a message body into its fields.
pub fn split_fields<'a>(body: &'a [u8], delimited: &[u32], depth: u32) -> (r: Option<
    Vec<WireField<'a>>,
>)
    ensures
        match read_fields(body@, delimited@, depth as nat) {
            None => r is None,
            Some(fs) => r matches Some(v) && views(v@) == fs,
        },
{
    let mut out: Vec<WireField<'a>> = Vec::new();
    let mut rest = body;
    assert(views(out@) =~= Seq::empty());
    while rest.len() > 0
        invariant
            match read_fields(rest@, delimited@, depth as nat) {
                None => read_fields(body@, delimited@, depth as nat) is None,
                Some(fs) => read_fields(body@, delimited@, depth as nat) == Some(
                    views(out@) + fs,
                ),
            },
        decreases rest@.len(),
    {
        match take_field(rest, delimited, depth) {
            None => {
                return None;
            },
            Some((field, tail)) => {
                let ghost before = out@;
                out.push(field);
                proof {
                    assert(views(out@) =~= views(before).push(field@));
                    if let Some(fs) = read_fields(tail@, delimited@, depth as nat) {
                        assert(views(before) + (seq![field@] + fs) =~= views(out@) + fs);
                    }
                }
                rest = tail;
            },
        }
    }
    assert(views(out@) + Seq::<FieldView>::empty() =~= views(out@));
    Some(out)
}

/// The payload of the last length-delimited field `number`.
pub open spec fn last_bytes(fields: Seq<FieldView>, number: u32) -> Option<Seq<u8>>
    decreases fields.len(),
{
    if fields.len() == 0 {
        None
    } else {
        match fields.last().value {
            ValueView::Bytes(p) if fields.last().number == number => Some(p),
            _ => last_bytes(fields.drop_last(), number),
        }
    }
}

/// The payloads of all length-delimited fields `number`, in order.
pub open spec fn all_bytes(fields: Seq<FieldView>, number: u32) -> Seq<Seq<u8>>
    decreases fields.len(),
{
    if fields.len() == 0 {
        Seq::empty()
    } else {
        let front = all_bytes(fields.drop_last(), number);
        match fields.last().value {
            ValueView::Bytes(p) if fields.last().number == number => front.push(p),
            _ => front,
        }
    }
}

/// The value of the last varint field `number`.
pub open spec fn last_varint(fields: Seq<FieldView>, number: u32) -> Option<u64>
    decreases fields.len(),
{
    if fields.len() == 0 {
        None
    } else {
        match fields.last().value {
            ValueView::Varint(v) if fields.last().number == number => Some(v),
            _ => last_varint(fields.drop_last(), number),
        }
    }
}

/// The fields of the message that the payloads hold together: a message that
/// occurs more than once is the merge of its occurrences.
pub open spec fn merged_fields(payloads: Seq<Seq<u8>>, delimited: Seq<u32>, depth: nat) -> Seq<
    FieldView,
>
    decreases payloads.len(),
{
    if payloads.len() == 0 {
        Seq::empty()
    } else {
        let front = merged_fields(payloads.drop_last(), delimited, depth);
        match read_fields(payloads.last(), delimited, depth) {
            None => front,
            Some(fs) => front + fs,
        }
    }
}

/// The contents of a sequence of byte slices.
pub open spec fn contents(slices: Seq<&[u8]>) -> Seq<Seq<u8>> {
    Seq::new(slices.len(), |i: int| slices[i]@)
}

/// Finds the payload of the last length-delimited field `number`.
pub fn find_last_bytes<'a>(fields: &[WireField<'a>], number: u32) -> (r: Option<&'a [u8]>)
    ensures
        match last_bytes(views(fields@), number) {
            None => r is None,
            Some(p) => r matches Some(payload) && payload@ == p,
        },
{
    let mut found: Option<&'a [u8]> = None;
    let mut i: usize = 0;
    assert(views(fields@.take(0)) =~= Seq::empty());
    while i < fields.len()
        invariant
            i <= fields@.len(),
            match last_bytes(views(fields@.take(i as int)), number) {
                None => found is None,
                Some(p) => found matches Some(payload) && payload@ == p,
            },
        decreases fields@.len() - i,
    {
        let field: WireField<'a> = fields[i];
        proof {
            let next = views(fields@.take(i + 1));
            assert(next.drop_last() =~= views(fields@.take(i as int)));
            assert(next.last() == field@);
        }
        if field.number == number {
            if let WireValue::Bytes(payload) = field.value {
                found = Some(payload);
            }
        }
        i += 1;
    }
    assert(fields@.take(fields@.len() as int) =~= fields@);
    found
}

/// Collects the payloads of all length-delimited fields `number`.
pub fn find_all_bytes<'a>(fields: &[WireField<'a>], number: u32) -> (r: Vec<&'a [u8]>)
    ensures
        contents(r@) == all_bytes(views(fields@), number),
{
    let mut found: Vec<&'a [u8]> = Vec::new();
    let mut i: usize = 0;
    assert(views(fields@.take(0)) =~= Seq::empty());
    assert(contents(found@) =~= Seq::empty());
    while i < fields.len()
        invariant
            i <= fields@.len(),
            contents(found@) == all_bytes(views(fields@.take(i as int)), number),
        decreases fields@.len() - i,
    {
        let field: WireField<'a> = fields[i];
        proof {
            let next = views(fields@.take(i + 1));
            assert(next.drop_last() =~= views(fields@.take(i as int)));
            assert(next.last() == field@);
        }
        if field.number == number {
            if let WireValue::Bytes(payload) = field.value {
                let ghost before = found@;
                found.push(payload);
                assert(contents(found@) =~= contents(before).push(payload@));
            }
        }
        i += 1;
    }
    assert(fields@.take(fields@.len() as int) =~= fields@);
    found
}

/// Finds the value of the last varint field `number`.
pub fn find_last_varint(fields: &[WireField], number: u32) -> (r: Option<u64>)
    ensures
        r == last_varint(views(fields@), number),
{
    let mut found: Option<u64> = None;
    let mut i: usize = 0;
    assert(views(fields@.take(0)) =~= Seq::empty());
    while i < fields.len()
        invariant
            i <= fields@.len(),
            found == last_varint(views(fields@.take(i as int)), number),
        decreases fields@.len() - i,
    {
        let field: WireField = fields[i];
        proof {
            let next = views(fields@.take(i + 1));
            assert(next.drop_last() =~= views(fields@.take(i as int)));
            assert(next.last() == field@);
        }
        if field.number == number {
            if let WireValue::Varint(value) = field.value {
                found = Some(value);
            }
        }
        i += 1;
    }
    assert(fields@.take(fields@.len() as int) =~= fields@);
    found
}

/// Merges the fields of the messages that the payloads hold.
pub fn merge_payloads<'a>(payloads: &[&'a [u8]], delimited: &[u32], depth: u32) -> (r: Vec<
    WireField<'a>,
>)
    ensures
        views(r@) == merged_fields(contents(payloads@), delimited@, depth as nat),
{
    let mut out: Vec<WireField<'a>> = Vec::new();
    let mut i: usize = 0;
    assert(contents(payloads@.take(0)) =~= Seq::empty());
    assert(views(out@) =~= Seq::empty());
    while i < payloads.len()
        invariant
            i <= payloads@.len(),
            views(out@) == merged_fields(
                contents(payloads@.take(i as int)),
                delimited@,
                depth as nat,
            ),
        decreases payloads@.len() - i,
    {
        let payload: &'a [u8] = payloads[i];
        proof {
            let next = contents(payloads@.take(i + 1));
            assert(next.drop_last() =~= contents(payloads@.take(i as int)));
            assert(next.last() == payload@);
        }
        if let Some(fields) = split_fields(payload, delimited, depth) {
            let ghost before = out@;
            let mut more = fields;
            let ghost added = more@;
            out.append(&mut more);
            assert(views(out@) =~= views(before) + views(added));
        }
        i += 1;
    }
    assert(payloads@.take(payloads@.len() as int) =~= payloads@);
    out
}

/// A length-delimited field that was written is read back with its number and
/// payload, and the reading stops where the field ends.
pub proof fn law_ld_field_round_trip(
    number: nat,
    payload: Seq<u8>,
    rest: Seq<u8>,
    delimited: Seq<u32>,
    depth: nat,
)
    requires
        1 <= number < 0x2000_0000,
        payload.len() <= u64::MAX,
    ensures
        read_field(ld_field(number, payload) + rest, delimited, depth) == Some(
            (
                FieldView { number: number as u32, value: ValueView::Bytes(payload) },
                ld_field(number, payload).len(),
            ),
        ),
        ld_field(number, payload).len() > payload.len(),
{
    let key = (number * 8 + 2) as u64;
    let head = varint_bytes(key as nat);
    let size = varint_bytes(payload.len());
    let after_key = size + payload + rest;
    let b = ld_field(number, payload) + rest;
    assert((number * 8) % 0x1_0000_0000_0000_0000 + 2 == key);
    assert(b =~= head + after_key);
    assert(read_key(b) == Some((number as u32, WIRE_BYTES, head.len()))) by {
        law_varint_round_trip(key, after_key);
        assert(key / 8 == number && key % 8 == 2);
    }
    assert(b.skip(head.len() as int) =~= after_key);
    assert(read_bytes(after_key) == Some((payload, size.len() + payload.len()))) by {
        law_varint_round_trip(payload.len() as u64, payload + rest);
        assert(after_key =~= size + (payload + rest));
        assert(after_key.subrange(size.len() as int, (size.len() + payload.len()) as int)
            =~= payload);
    }
    law_varint_length(key);
    law_varint_length(payload.len() as u64);
}

/// The fields of a body that starts with a written field: that field, then the
/// fields of what follows.
pub proof fn law_ld_field_prefix(
    number: nat,
    payload: Seq<u8>,
    rest: Seq<u8>,
    delimited: Seq<u32>,
    depth: nat,
)
    requires
        1 <= number < 0x2000_0000,
        payload.len() <= u64::MAX,
    ensures
        read_fields(ld_field(number, payload) + rest, delimited, depth) == match read_fields(
            rest,
            delimited,
            depth,
        ) {
            None => None,
            Some(fs) => Some(
                seq![FieldView { number: number as u32, value: ValueView::Bytes(payload) }] + fs,
            ),
        },
{
    law_ld_field_round_trip(number, payload, rest, delimited, depth);
    let b = ld_field(number, payload) + rest;
    assert(b.skip(ld_field(number, payload).len() as int) =~= rest);
}

proof fn lemma_varint_prefix(a: Seq<u8>, b: Seq<u8>, i: nat)
    ensures
        read_varint(a, i) is Some ==> read_varint(a + b, i) == read_varint(a, i),
    decreases a.len(),
{
    if i < 10 && a.len() > 0 {
        assert((a + b)[0] == a[0]);
        if a[0] >= 128 {
            lemma_varint_prefix(a.skip(1), b, i + 1);
            assert((a + b).skip(1) =~= a.skip(1) + b);
        }
    }
}

proof fn lemma_bytes_prefix(a: Seq<u8>, b: Seq<u8>)
    ensures
        read_bytes(a) is Some ==> read_bytes(a + b) == read_bytes(a),
{
    lemma_varint_prefix(a, b, 0);
    if let Some((p, n)) = read_bytes(a) {
        if let Some((len, m)) = read_varint(a, 0) {
            assert((a + b).subrange(m as int, (m + len) as int) =~= p);
        }
    }
}

proof fn lemma_key_prefix(a: Seq<u8>, b: Seq<u8>)
    ensures
        read_key(a) is Some ==> read_key(a + b) == read_key(a),
        read_key(a) matches Some((k, w, n)) ==> 1 <= n <= a.len() && (a + b).skip(n as int)
            == a.skip(n as int) + b,
{
    lemma_varint_prefix(a, b, 0);
    lemma_read_varint_bounds(a, 0);
    if let Some((k, w, n)) = read_key(a) {
        assert((a + b).skip(n as int) =~= a.skip(n as int) + b);
    }
}

proof fn lemma_skip_prefix(a: Seq<u8>, b: Seq<u8>, number: u32, wire_type: u32, depth: nat)
    ensures
        skip_len(a, number, wire_type, depth) is Some ==> skip_len(a + b, number, wire_type, depth)
            == skip_len(a, number, wire_type, depth),
    decreases depth, a.len(), 1nat,
{
    lemma_varint_prefix(a, b, 0);
    lemma_bytes_prefix(a, b);
    if depth > 0 && wire_type == WIRE_START_GROUP {
        lemma_group_prefix(a, b, number, depth);
    }
}

proof fn lemma_group_prefix(a: Seq<u8>, b: Seq<u8>, number: u32, depth: nat)
    ensures
        group_len(a, number, depth) is Some ==> group_len(a + b, number, depth) == group_len(
            a,
            number,
            depth,
        ),
    decreases depth, a.len(), 0nat,
{
    if depth > 0 {
        lemma_key_prefix(a, b);
        if let Some((inner, wire_type, n)) = read_key(a) {
            if wire_type != WIRE_END_GROUP {
                let rest = a.skip(n as int);
                let below = (depth - 1) as nat;
                lemma_skip_prefix(rest, b, inner, wire_type, below);
                if let Some(m) = skip_len(rest, inner, wire_type, below) {
                    if n + m <= a.len() {
                        lemma_group_prefix(a.skip((n + m) as int), b, number, depth);
                        assert((a + b).skip((n + m) as int) =~= a.skip((n + m) as int) + b);
                    }
                }
            }
        }
    }
}

proof fn lemma_le32_prefix(a: Seq<u8>, b: Seq<u8>)
    requires
        a.len() >= 4,
    ensures
        le32(a + b) == le32(a),
{
    reveal(le32);
}

/// A field is read the same whatever follows it.
pub proof fn law_field_prefix(a: Seq<u8>, b: Seq<u8>, delimited: Seq<u32>, depth: nat)
    ensures
        read_field(a, delimited, depth) is Some ==> read_field(a + b, delimited, depth)
            == read_field(a, delimited, depth),
{
    lemma_key_prefix(a, b);
    if let Some((number, wire_type, n)) = read_key(a) {
        let rest = a.skip(n as int);
        lemma_varint_prefix(rest, b, 0);
        lemma_bytes_prefix(rest, b);
        lemma_group_prefix(rest, b, number, depth);
        if rest.len() >= 4 {
            lemma_le32_prefix(rest, b);
        }
        if rest.len() >= 8 {
            reveal(le64);
            lemma_le32_prefix(rest.skip(4), b);
            assert((rest + b).skip(4) =~= rest.skip(4) + b);
        }
    }
}

/// The fields of two bodies one after the other are those of the first, then
/// those of the second.
pub proof fn law_fields_of_concatenation(
    a: Seq<u8>,
    b: Seq<u8>,
    delimited: Seq<u32>,
    depth: nat,
)
    requires
        read_fields(a, delimited, depth) is Some,
    ensures
        read_fields(a + b, delimited, depth) == match read_fields(b, delimited, depth) {
            None => None,
            Some(fb) => Some(read_fields(a, delimited, depth)->0 + fb),
        },
    decreases a.len(),
{
    if a.len() == 0 {
        assert(a + b =~= b);
        if let Some(fb) = read_fields(b, delimited, depth) {
            assert(Seq::<FieldView>::empty() + fb =~= fb);
        }
    } else if let Some((f, n)) = read_field(a, delimited, depth) {
        law_field_prefix(a, b, delimited, depth);
        law_fields_of_concatenation(a.skip(n as int), b, delimited, depth);
        assert((a + b).skip(n as int) =~= a.skip(n as int) + b);
        if let Some(fb) = read_fields(b, delimited, depth) {
            let fa = read_fields(a.skip(n as int), delimited, depth)->0;
            assert(seq![f] + (fa + fb) =~= (seq![f] + fa) + fb);
        }
    }
}

/// A message that is sent in two pieces is the message of their bytes one after
/// the other.
pub proof fn law_merge_is_concatenation(
    a: Seq<u8>,
    b: Seq<u8>,
    delimited: Seq<u32>,
    depth: nat,
)
    requires
        read_fields(a, delimited, depth) is Some,
        read_fields(b, delimited, depth) is Some,
    ensures
        read_fields(a + b, delimited, depth) == Some(
            merged_fields(seq![a, b], delimited, depth),
        ),
{
    law_fields_of_concatenation(a, b, delimited, depth);
    let fa = read_fields(a, delimited, depth)->0;
    assert(seq![a, b].drop_last() =~= seq![a]);
    assert(seq![a].drop_last() =~= Seq::<Seq<u8>>::empty());
    assert(merged_fields(Seq::empty(), delimited, depth) =~= Seq::<FieldView>::empty());
    assert(merged_fields(seq![a], delimited, depth) =~= fa);
}

/// The bytes of a varint field: the key with wire type 0, the value.
pub open spec fn varint_field(number: nat, value: u64) -> Seq<u8> {
    varint_bytes(number * 8) + varint_bytes(value as nat)
}

/// A varint field that was written is read back with its number and value.
pub proof fn law_varint_field_round_trip(
    number: nat,
    value: u64,
    delimited: Seq<u32>,
    depth: nat,
)
    requires
        1 <= number < 0x2000_0000,
        !delimited.contains(number as u32),
    ensures
        read_fields(varint_field(number, value), delimited, depth) == Some(
            seq![FieldView { number: number as u32, value: ValueView::Varint(value) }],
        ),
{
    let key = (number * 8) as u64;
    let head = varint_bytes(key as nat);
    let tail = varint_bytes(value as nat);
    let b = varint_field(number, value);
    let end = Seq::<u8>::empty();
    law_varint_length(key);
    law_varint_length(value);
    assert(read_key(b) == Some((number as u32, WIRE_VARINT, head.len()))) by {
        law_varint_round_trip(key, tail);
        assert(key / 8 == number && key % 8 == 0);
    }
    assert(b.skip(head.len() as int) =~= tail);
    assert(read_varint(tail, 0) == Some((value as nat, tail.len()))) by {
        law_varint_round_trip(value, end);
        assert(tail + end =~= tail);
    }
    assert(b.skip(b.len() as int) =~= end);
    assert(read_fields(end, delimited, depth) == Some(Seq::<FieldView>::empty()));
    let f = FieldView { number: number as u32, value: ValueView::Varint(value) };
    assert(read_field(b, delimited, depth) == Some((f, b.len())));
    assert(seq![f] + Seq::<FieldView>::empty() =~= seq![f]);
}

/// The payloads in two lists of fields are those in the first, then those in
/// the second.
pub proof fn lemma_all_bytes_concat(a: Seq<FieldView>, b: Seq<FieldView>, number: u32)
    ensures
        all_bytes(a + b, number) == all_bytes(a, number) + all_bytes(b, number),
    decreases b.len(),
{
    if b.len() == 0 {
        assert(a + b =~= a);
        assert(all_bytes(a, number) + Seq::<Seq<u8>>::empty() =~= all_bytes(a, number));
    } else {
        lemma_all_bytes_concat(a, b.drop_last(), number);
        assert((a + b).drop_last() =~= a + b.drop_last());
        assert((a + b).last() == b.last());
        assert(all_bytes(a + b, number) =~= all_bytes(a, number) + all_bytes(b, number));
    }
}

/// The fields with a number, in order.
pub open spec fn numbered(fields: Seq<FieldView>, number: u32) -> Seq<FieldView> {
    fields.filter(|f: FieldView| f.number == number)
}

/// One more field is among those with its own number and no others.
pub proof fn law_numbered_fields(fields: Seq<FieldView>, last: FieldView, number: u32)
    ensures
        numbered(Seq::empty(), number) == Seq::<FieldView>::empty(),
        last.number == number ==> numbered(fields.push(last), number) == numbered(
            fields,
            number,
        ).push(last),
        last.number != number ==> numbered(fields.push(last), number) == numbered(fields, number),
{
    reveal(Seq::filter);
    assert(fields.push(last).drop_last() =~= fields);
}

/// The last field with a number gives the value that counts.
pub proof fn law_last_field_counts(fields: Seq<FieldView>, number: u32, i: int)
    requires
        0 <= i < fields.len(),
        fields[i].number == number,
        forall|k: int| i < k < fields.len() ==> (#[trigger] fields[k]).number != number,
    ensures
        fields[i].value matches ValueView::Bytes(p) ==> last_bytes(fields, number) == Some(p),
        fields[i].value matches ValueView::Varint(v) ==> last_varint(fields, number) == Some(v),
    decreases fields.len(),
{
    let front = fields.drop_last();
    if i < fields.len() - 1 {
        assert(fields[fields.len() - 1].number != number);
        assert forall|k: int| i < k < front.len() implies (#[trigger] front[k]).number
            != number by {
            assert(front[k] == fields[k]);
        }
        law_last_field_counts(front, number, i);
    }
}

/// A number that no field has gives no value.
pub proof fn law_absent_field_gives_nothing(fields: Seq<FieldView>, number: u32)
    requires
        forall|k: int| 0 <= k < fields.len() ==> (#[trigger] fields[k]).number != number,
    ensures
        last_bytes(fields, number) is None,
        last_varint(fields, number) is None,
        all_bytes(fields, number) == Seq::<Seq<u8>>::empty(),
    decreases fields.len(),
{
    if fields.len() > 0 {
        let front = fields.drop_last();
        assert(fields[fields.len() - 1].number != number);
        assert forall|k: int| 0 <= k < front.len() implies (#[trigger] front[k]).number
            != number by {
            assert(front[k] == fields[k]);
        }
        law_absent_field_gives_nothing(front, number);
    }
}

/// What is picked out by a number depends on the fields with that number alone.
pub proof fn law_numbers_are_independent(fields: Seq<FieldView>, number: u32)
    ensures
        last_bytes(fields, number) == last_bytes(numbered(fields, number), number),
        last_varint(fields, number) == last_varint(numbered(fields, number), number),
        all_bytes(fields, number) == all_bytes(numbered(fields, number), number),
    decreases fields.len(),
{
    if fields.len() == 0 {
        law_numbered_fields(fields, FieldView { number, value: ValueView::Group }, number);
        assert(fields =~= Seq::<FieldView>::empty());
    } else {
        let front = fields.drop_last();
        let last = fields.last();
        assert(front.push(last) =~= fields);
        law_numbered_fields(front, last, number);
        law_numbers_are_independent(front, number);
        if last.number == number {
            assert(numbered(fields, number).drop_last() =~= numbered(front, number));
        }
    }
}

/// All payloads of length-delimited fields with a number are picked out, in
/// order.
pub proof fn law_all_payloads_in_order(fields: Seq<FieldView>, number: u32)
    requires
        forall|k: int|
            0 <= k < fields.len() && (#[trigger] fields[k]).number == number
                ==> fields[k].value is Bytes,
    ensures
        all_bytes(fields, number).len() == numbered(fields, number).len(),
        forall|k: int|
            0 <= k < numbered(fields, number).len() ==> (#[trigger] numbered(
                fields,
                number,
            )[k]).value == ValueView::Bytes(all_bytes(fields, number)[k]),
    decreases fields.len(),
{
    if fields.len() == 0 {
        law_numbered_fields(fields, FieldView { number, value: ValueView::Group }, number);
        assert(fields =~= Seq::<FieldView>::empty());
    } else {
        let front = fields.drop_last();
        let last = fields.last();
        assert(front.push(last) =~= fields);
        assert(fields[fields.len() - 1] == last);
        assert forall|k: int|
            0 <= k < front.len() && (#[trigger] front[k]).number == number implies front[k].value
            is Bytes by {
            assert(front[k] == fields[k]);
        }
        law_numbered_fields(front, last, number);
        law_all_payloads_in_order(front, number);
        let own = numbered(front, number);
        assert forall|k: int| 0 <= k < numbered(fields, number).len() implies (#[trigger] numbered(
            fields,
            number,
        )[k]).value == ValueView::Bytes(all_bytes(fields, number)[k]) by {
            if k < own.len() {
                assert(own[k].value == ValueView::Bytes(all_bytes(front, number)[k]));
            }
        }
    }
}

/// A message that is sent once more has the fields of that occurrence after
/// those it had.
pub proof fn law_merge_appends(
    payloads: Seq<Seq<u8>>,
    payload: Seq<u8>,
    delimited: Seq<u32>,
    depth: nat,
)
    ensures
        merged_fields(Seq::empty(), delimited, depth) == Seq::<FieldView>::empty(),
        read_fields(payload, delimited, depth) matches Some(fs) ==> merged_fields(
            payloads.push(payload),
            delimited,
            depth,
        ) == merged_fields(payloads, delimited, depth) + fs,
{
    assert(payloads.push(payload).drop_last() =~= payloads);
}

/// Whether a field is the last one with a number.
pub open spec fn last_numbered(fields: Seq<FieldView>, number: u32, i: int) -> bool {
    &&& 0 <= i < fields.len()
    &&& fields[i].number == number
    &&& forall|k: int| i < k < fields.len() ==> (#[trigger] fields[k]).number != number
}

/// Finds the last field with a number; -1 where there is none.
pub proof fn lemma_last_numbered(fields: Seq<FieldView>, number: u32) -> (r: int)
    ensures
        r == -1 || last_numbered(fields, number, r),
        r == -1 ==> forall|k: int|
            0 <= k < fields.len() ==> (#[trigger] fields[k]).number != number,
    decreases fields.len(),
{
    if fields.len() == 0 {
        -1
    } else if fields.last().number == number {
        fields.len() - 1
    } else {
        let front = fields.drop_last();
        let r = lemma_last_numbered(front, number);
        assert forall|k: int| r < k < fields.len() && k >= 0 implies (#[trigger] fields[k]).number
            != number by {
            if k < front.len() {
                assert(front[k] == fields[k]);
            }
        }
        r
    }
}

/// A field of eight bytes is read with the number that they hold, the lowest byte
/// first, and one of four bytes likewise.
pub proof fn law_fixed_fields_are_read(
    number: nat,
    b: Seq<u8>,
    rest: Seq<u8>,
    delimited: Seq<u32>,
    depth: nat,
)
    requires
        1 <= number < 0x2000_0000,
        !delimited.contains(number as u32),
        b.len() == 8 || b.len() == 4,
    ensures
        b.len() == 8 ==> read_field(varint_bytes(number * 8 + 1) + b + rest, delimited, depth)
            == Some(
            (
                FieldView {
                    number: number as u32,
                    value: ValueView::Fixed64(
                        (b[0] + 0x100 * b[1] + 0x1_0000 * b[2] + 0x100_0000 * b[3]
                            + 0x1_0000_0000 * (b[4] + 0x100 * b[5] + 0x1_0000 * b[6] + 0x100_0000
                            * b[7])) as u64,
                    ),
                },
                varint_bytes(number * 8 + 1).len() + 8,
            ),
        ),
        b.len() == 4 ==> read_field(varint_bytes(number * 8 + 5) + b + rest, delimited, depth)
            == Some(
            (
                FieldView {
                    number: number as u32,
                    value: ValueView::Fixed32(
                        (b[0] + 0x100 * b[1] + 0x1_0000 * b[2] + 0x100_0000 * b[3]) as u32,
                    ),
                },
                varint_bytes(number * 8 + 5).len() + 4,
            ),
        ),
{
    reveal(le32);
    reveal(le64);
    let wire: nat = if b.len() == 8 {
        1
    } else {
        5
    };
    let key = (number * 8 + wire) as u64;
    let head = varint_bytes(key as nat);
    let whole = head + b + rest;
    law_varint_round_trip(key, b + rest);
    assert(whole =~= head + (b + rest));
    assert(key / 8 == number && key % 8 == wire);
    assert(whole.skip(head.len() as int) =~= b + rest);
    if b.len() == 8 {
        assert((b + rest).skip(4)[0] == b[4]);
        assert((b + rest).skip(4)[1] == b[5]);
        assert((b + rest).skip(4)[2] == b[6]);
        assert((b + rest).skip(4)[3] == b[7]);
    }
}

/// A body that is not empty is read field by field: the first one, and then those
/// of the bytes that follow it.
pub proof fn law_fields_are_read_one_by_one(b: Seq<u8>, delimited: Seq<u32>, depth: nat)
    ensures
        read_fields(Seq::empty(), delimited, depth) == Some(Seq::<FieldView>::empty()),
        b.len() > 0 && read_field(b, delimited, depth) is None ==> read_fields(
            b,
            delimited,
            depth,
        ) is None,
        read_field(b, delimited, depth) matches Some((f, n)) ==> 1 <= n <= b.len() && read_fields(
            b,
            delimited,
            depth,
        ) == match read_fields(b.skip(n as int), delimited, depth) {
            None => None,
            Some(fs) => Some(seq![f] + fs),
        },
{
    lemma_read_varint_bounds(b, 0);
    if let Some((number, wire_type, n)) = read_key(b) {
        let rest = b.skip(n as int);
        lemma_read_varint_bounds(rest, 0);
        lemma_group_bounds(rest, number, depth);
    }
}

proof fn lemma_key_in_front(number: nat, wire_type: nat, rest: Seq<u8>)
    requires
        1 <= number < 0x2000_0000,
        wire_type <= 5,
    ensures
        read_key(varint_bytes(number * 8 + wire_type) + rest) == Some(
            (number as u32, wire_type as u32, varint_bytes(number * 8 + wire_type).len()),
        ),
        (varint_bytes(number * 8 + wire_type) + rest).skip(
            varint_bytes(number * 8 + wire_type).len() as int,
        ) == rest,
        varint_bytes(number * 8 + wire_type).len() >= 1,
{
    let key = (number * 8 + wire_type) as u64;
    let head = varint_bytes(key as nat);
    law_varint_round_trip(key, rest);
    law_varint_length(key);
    assert(key / 8 == number && key % 8 == wire_type);
    assert((head + rest).skip(head.len() as int) =~= rest);
}

/// A group is stepped over from the key that opens it to the one that closes it,
/// whatever it holds.
pub proof fn law_groups_are_stepped_over(
    number: nat,
    body: Seq<u8>,
    rest: Seq<u8>,
    delimited: Seq<u32>,
    depth: nat,
)
    requires
        1 <= number < 0x2000_0000,
        !delimited.contains(number as u32),
        group_len(body, number as u32, depth) == Some(body.len()),
    ensures
        read_field(varint_bytes(number * 8 + 3) + (body + rest), delimited, depth) == Some(
            (
                FieldView { number: number as u32, value: ValueView::Group },
                varint_bytes(number * 8 + 3).len() + body.len(),
            ),
        ),
{
    lemma_key_in_front(number, 3, body + rest);
    lemma_group_prefix(body, rest, number as u32, depth);
}

/// What a group may hold: nothing but the key that closes it; a field of any wire
/// type and then more; a group of its own and then more. The key that closes
/// another group ends it in failure.
pub proof fn law_groups_hold_fields(
    number: nat,
    inner: nat,
    payload: Seq<u8>,
    value: u64,
    rest: Seq<u8>,
    depth: nat,
)
    requires
        1 <= number < 0x2000_0000,
        1 <= inner < 0x2000_0000,
        payload.len() <= u64::MAX,
        depth > 1,
    ensures
        group_len(varint_bytes(number * 8 + 4) + rest, number as u32, depth) == Some(
            varint_bytes(number * 8 + 4).len(),
        ),
        inner != number ==> group_len(
            varint_bytes(inner * 8 + 4) + rest,
            number as u32,
            depth,
        ) is None,
        group_len(rest, number as u32, depth) matches Some(k) ==> {
            &&& group_len(
                varint_bytes(inner * 8 + 2) + (varint_bytes(payload.len()) + payload + rest),
                number as u32,
                depth,
            ) == Some(
                varint_bytes(inner * 8 + 2).len() + varint_bytes(payload.len()).len()
                    + payload.len() + k,
            )
            &&& group_len(
                varint_bytes(inner * 8) + (varint_bytes(value as nat) + rest),
                number as u32,
                depth,
            ) == Some(varint_bytes(inner * 8).len() + varint_bytes(value as nat).len() + k)
            &&& payload.len() == 8 ==> group_len(
                varint_bytes(inner * 8 + 1) + (payload + rest),
                number as u32,
                depth,
            ) == Some(varint_bytes(inner * 8 + 1).len() + 8 + k)
            &&& payload.len() == 4 ==> group_len(
                varint_bytes(inner * 8 + 5) + (payload + rest),
                number as u32,
                depth,
            ) == Some(varint_bytes(inner * 8 + 5).len() + 4 + k)
            &&& group_len(payload, inner as u32, (depth - 1) as nat) == Some(payload.len())
                ==> group_len(
                varint_bytes(inner * 8 + 3) + (payload + rest),
                number as u32,
                depth,
            ) == Some(varint_bytes(inner * 8 + 3).len() + payload.len() + k)
        },
{
    let below = (depth - 1) as nat;
    lemma_key_in_front(number, 4, rest);
    lemma_key_in_front(inner, 4, rest);
    if group_len(rest, number as u32, depth) is Some {
        let size = varint_bytes(payload.len());
        let plain = size + payload + rest;
        assert(plain =~= size + (payload + rest));
        law_varint_round_trip(payload.len() as u64, payload + rest);
        assert(read_bytes(plain) == Some((payload, size.len() + payload.len()))) by {
            assert(plain.subrange(size.len() as int, (size.len() + payload.len()) as int)
                =~= payload);
        }
        lemma_group_step(number, inner, 2, size + payload, rest, depth);
        assert(size + payload + rest == plain);
        let number_bytes = varint_bytes(value as nat);
        law_varint_round_trip(value, rest);
        lemma_group_step(number, inner, 0, number_bytes, rest, depth);
        if payload.len() == 8 {
            lemma_group_step(number, inner, 1, payload, rest, depth);
        }
        if payload.len() == 4 {
            lemma_group_step(number, inner, 5, payload, rest, depth);
        }
        if group_len(payload, inner as u32, below) == Some(payload.len()) {
            lemma_group_prefix(payload, rest, inner as u32, below);
            lemma_group_step(number, inner, 3, payload, rest, depth);
        }
    }
}

proof fn lemma_group_step(
    number: nat,
    inner: nat,
    wire_type: nat,
    value: Seq<u8>,
    rest: Seq<u8>,
    depth: nat,
)
    requires
        1 <= number < 0x2000_0000,
        1 <= inner < 0x2000_0000,
        wire_type <= 5,
        wire_type != 4,
        depth > 1,
        skip_len(value + rest, inner as u32, wire_type as u32, (depth - 1) as nat) == Some(
            value.len(),
        ),
        group_len(rest, number as u32, depth) is Some,
    ensures
        group_len(
            varint_bytes(inner * 8 + wire_type) + (value + rest),
            number as u32,
            depth,
        ) == Some(
            varint_bytes(inner * 8 + wire_type).len() + value.len() + group_len(
                rest,
                number as u32,
                depth,
            )->0,
        ),
{
    let head = varint_bytes(inner * 8 + wire_type);
    let b = head + (value + rest);
    lemma_key_in_front(inner, wire_type, value + rest);
    assert(b.skip((head.len() + value.len()) as int) =~= rest);
}

} // verus!

//! Comparing and building strings and byte slices.
use vstd::prelude::*;
use vstd::string::{StrSliceExecFns, StringExecFns};
use vstd::utf8::{decode_utf8, encode_utf8, valid_utf8};

verus! {

/// Whether two byte slices hold the same bytes.
pub fn bytes_eq(a: &[u8], b: &[u8]) -> (r: bool)
    ensures
        r == (a@ == b@),
{
    if a.len() != b.len() {
        return false;
    }
    let mut i: usize = 0;
    while i < a.len()
        invariant
            a@.len() == b@.len(),
            i <= a@.len(),
            forall|j: int| 0 <= j < i ==> a@[j] == b@[j],
        decreases a@.len() - i,
    {
        if a[i] != b[i] {
            return false;
        }
        i += 1;
    }
    assert(a@ =~= b@);
    true
}

/// Two texts with the same UTF-8 encoding are the same text.
pub proof fn lemma_encode_utf8_injective(a: Seq<char>, b: Seq<char>)
    requires
        encode_utf8(a) == encode_utf8(b),
    ensures
        a == b,
{
    vstd::utf8::encode_utf8_decode_utf8(a);
    vstd::utf8::encode_utf8_decode_utf8(b);
}

/// Whether two strings hold the same characters.
pub fn str_eq(a: &str, b: &str) -> (r: bool)
    ensures
        r == (a@ == b@),
{
    let r = bytes_eq(a.as_bytes(), b.as_bytes());
    proof {
        if r {
            lemma_encode_utf8_injective(a@, b@);
        }
    }
    r
}

/// `core::str::from_utf8`, followed by copying the text out: the result is
/// `Some` exactly for well-formed UTF-8, and then holds the decoded characters.
#[verifier::external_body]
pub(crate) fn utf8_text(bytes: &[u8]) -> (r: Option<String>)
    ensures
        r is Some <==> valid_utf8(bytes@),
        r matches Some(s) ==> s@ == decode_utf8(bytes@),
{
    match core::str::from_utf8(bytes) {
        Ok(s) => Some(s.to_owned()),
        Err(_) => None,
    }
}

/// Whether one sequence of bytes comes before another in dictionary order.
pub open spec fn bytes_less(a: Seq<u8>, b: Seq<u8>) -> bool
    decreases a.len(),
{
    if b.len() == 0 {
        false
    } else if a.len() == 0 {
        true
    } else if a[0] != b[0] {
        a[0] < b[0]
    } else {
        bytes_less(a.skip(1), b.skip(1))
    }
}

/// Whether one text comes before another, by the bytes of their encodings.
pub open spec fn text_less(a: Seq<char>, b: Seq<char>) -> bool {
    bytes_less(encode_utf8(a), encode_utf8(b))
}

proof fn lemma_bytes_less_transitive(a: Seq<u8>, b: Seq<u8>, c: Seq<u8>)
    requires
        bytes_less(a, b),
        bytes_less(b, c),
    ensures
        bytes_less(a, c),
    decreases a.len(),
{
    if a.len() > 0 && a[0] == b[0] && b[0] == c[0] {
        lemma_bytes_less_transitive(a.skip(1), b.skip(1), c.skip(1));
    }
}

proof fn lemma_bytes_less_total(a: Seq<u8>, b: Seq<u8>)
    ensures
        bytes_less(a, b) || bytes_less(b, a) || a == b,
        !bytes_less(a, a),
    decreases a.len(),
{
    if a.len() > 0 {
        lemma_bytes_less_total(a.skip(1), a.skip(1));
    }
    if a.len() > 0 && b.len() > 0 && a[0] == b[0] {
        lemma_bytes_less_total(a.skip(1), b.skip(1));
        if a.skip(1) == b.skip(1) {
            assert(a =~= seq![a[0]] + a.skip(1));
            assert(b =~= seq![b[0]] + b.skip(1));
        }
    } else if a.len() == 0 && b.len() == 0 {
        assert(a =~= b);
    }
}

/// The order of texts is total: of two different texts one comes before the
/// other, none before itself, and what comes before an earlier one comes before
/// a later one.
pub proof fn law_text_order(a: Seq<char>, b: Seq<char>, c: Seq<char>)
    ensures
        text_less(a, b) || text_less(b, a) || a == b,
        !text_less(a, a),
        text_less(a, b) && text_less(b, c) ==> text_less(a, c),
{
    lemma_bytes_less_total(encode_utf8(a), encode_utf8(b));
    if encode_utf8(a) == encode_utf8(b) {
        lemma_encode_utf8_injective(a, b);
    }
    if text_less(a, b) && text_less(b, c) {
        lemma_bytes_less_transitive(encode_utf8(a), encode_utf8(b), encode_utf8(c));
    }
}

/// Whether one string comes before another.
pub fn str_less(a: &str, b: &str) -> (r: bool)
    ensures
        r == text_less(a@, b@),
{
    let left = a.as_bytes();
    let right = b.as_bytes();
    let mut i: usize = 0;
    assert(left@.skip(0) =~= left@);
    assert(right@.skip(0) =~= right@);
    while i < left.len() && i < right.len() && left[i] == right[i]
        invariant
            i <= left@.len(),
            i <= right@.len(),
            bytes_less(left@, right@) == bytes_less(left@.skip(i as int), right@.skip(i as int)),
        decreases left@.len() - i,
    {
        assert(left@.skip(i as int).skip(1) =~= left@.skip(i + 1));
        assert(right@.skip(i as int).skip(1) =~= right@.skip(i + 1));
        i += 1;
    }
    if i == right.len() {
        false
    } else if i == left.len() {
        true
    } else {
        left[i] < right[i]
    }
}

/// The character for six bits in the standard base64 alphabet.
pub open spec fn base64_char(six: int) -> char {
    "ABCDEFGHIJKLMNOPQRSTUVWXYZabcdefghijklmnopqrstuvwxyz0123456789+/"@[six]
}

/// Standard base64 with padding: three bytes give four characters of six bits
/// each; one or two bytes at the end are filled up with zero bits and padded.
pub open spec fn base64_text(b: Seq<u8>) -> Seq<char>
    decreases b.len(),
{
    if b.len() == 0 {
        Seq::empty()
    } else if b.len() == 1 {
        seq![base64_char((b[0] / 4) as int), base64_char((b[0] % 4) * 16), '=', '=']
    } else if b.len() == 2 {
        seq![
            base64_char((b[0] / 4) as int),
            base64_char((b[0] % 4) * 16 + b[1] / 16),
            base64_char((b[1] % 16) * 4),
            '=',
        ]
    } else {
        seq![
            base64_char((b[0] / 4) as int),
            base64_char((b[0] % 4) * 16 + b[1] / 16),
            base64_char((b[1] % 16) * 4 + b[2] / 64),
            base64_char((b[2] % 64) as int),
        ] + base64_text(b.skip(3))
    }
}

/// `base64::Engine::encode` of the engine `general_purpose::STANDARD`: standard
/// base64 with padding.
#[verifier::external_body]
pub(crate) fn base64_encode(bytes: &[u8]) -> (r: String)
    ensures
        r@ == base64_text(bytes@),
{
    base64::Engine::encode(&base64::engine::general_purpose::STANDARD, bytes)
}

/// The text of a payload; empty where it is not well-formed UTF-8.
pub open spec fn plain_text(p: Seq<u8>) -> Seq<char> {
    if valid_utf8(p) {
        decode_utf8(p)
    } else {
        Seq::empty()
    }
}

/// Reads the text of a payload.
pub fn read_plain_text(p: &[u8]) -> (r: String)
    ensures
        r@ == plain_text(p@),
{
    match utf8_text(p) {
        Some(s) => s,
        None => String::new(),
    }
}

/// `String::push`: it appends one character.
#[verifier::external_body]
pub(crate) fn push_char(s: &mut String, c: char)
    ensures
        final(s)@ == old(s)@.push(c),
{
    s.push(c);
}

/// A name with its first letter in lower case, where that is one of A to Z.
pub open spec fn decapitalised(s: Seq<char>) -> Seq<char> {
    if s.len() > 0 && 'A' <= s[0] && s[0] <= 'Z' {
        seq![(s[0] as u8 + 32) as char] + s.skip(1)
    } else {
        s
    }
}

/// Puts the first letter of a name in lower case.
pub fn decapitalise(s: &str) -> (r: String)
    ensures
        r@ == decapitalised(s@),
{
    let n: usize = s.unicode_len();
    if n > 0 {
        let c: char = s.get_char(0);
        if 'A' <= c && c <= 'Z' {
            let lower: char = (c as u8 + 32) as char;
            let mut out = String::new();
            push_char(&mut out, lower);
            out.append(s.substring_char(1, n));
            assert(out@ =~= decapitalised(s@));
            return out;
        }
    }
    s.to_owned()
}

/// Joins two strings with a third one between them.
pub fn join(a: &str, between: &str, b: &str) -> (r: String)
    ensures
        r@ == a@ + between@ + b@,
{
    let mut out = a.to_owned();
    out.append(between);
    out.append(b);
    out
}

/// The characters of a sequence of strings.
pub open spec fn texts(strings: Seq<String>) -> Seq<Seq<char>> {
    Seq::new(strings.len(), |i: int| strings[i]@)
}

/// Whether a list of strings holds a text.
pub fn has_text(list: &Vec<String>, text: &str) -> (r: bool)
    ensures
        r == texts(list@).contains(text@),
{
    let mut i: usize = 0;
    while i < list.len()
        invariant
            i <= list@.len(),
            forall|j: int| 0 <= j < i ==> list@[j]@ != text@,
        decreases list@.len() - i,
    {
        if str_eq(list[i].as_str(), text) {
            assert(texts(list@)[i as int] == text@);
            return true;
        }
        i += 1;
    }
    false
}

/// The order is that of a dictionary: the first byte in which two sequences
/// differ decides, and a sequence comes before those it starts.
pub proof fn law_dictionary_order(start: Seq<u8>, x: u8, a: Seq<u8>, y: u8, b: Seq<u8>)
    ensures
        x < y ==> bytes_less(start + seq![x] + a, start + seq![y] + b),
        x > y ==> !bytes_less(start + seq![x] + a, start + seq![y] + b),
        bytes_less(start, start + seq![x] + a),
        !bytes_less(start + seq![x] + a, start),
    decreases start.len(),
{
    let left = start + seq![x] + a;
    let right = start + seq![y] + b;
    if start.len() > 0 {
        let rest = start.skip(1);
        law_dictionary_order(rest, x, a, y, b);
        assert(left.skip(1) =~= rest + seq![x] + a);
        assert(right.skip(1) =~= rest + seq![y] + b);
        assert(left[0] == start[0] && right[0] == start[0]);
    } else {
        assert(left[0] == x && right[0] == y);
    }
}

} // verus!

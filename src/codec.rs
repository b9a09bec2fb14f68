//! Binary encoding of terms and items, as bincode lays them out.

use vstd::prelude::*;

verus! {

/// `n` as `k` bytes, least significant first.
pub open spec fn le_bytes(n: int, k: nat) -> Seq<u8>
    decreases k,
{
    if k == 0 {
        Seq::empty()
    } else {
        seq![(n % 256) as u8] + le_bytes(n / 256, (k - 1) as nat)
    }
}

/// The UTF-8 bytes of `s`.
pub open spec fn utf8_of(s: Seq<char>) -> Seq<u8> {
    vstd::utf8::encode_utf8(s)
}

/// The encoding of a string: the length of its UTF-8 bytes as a
/// little-endian `u64`, then the bytes themselves.
pub open spec fn string_code(s: Seq<char>) -> Seq<u8> {
    le_bytes(utf8_of(s).len() as int, 8) + utf8_of(s)
}

/// The encoding of a `u32`: its four bytes, least significant first.
pub open spec fn u32_code(x: u32) -> Seq<u8> {
    seq![
        (x & 0xff) as u8,
        ((x >> 8u32) & 0xff) as u8,
        ((x >> 16u32) & 0xff) as u8,
        ((x >> 24u32) & 0xff) as u8,
    ]
}

/// Two `u32`s with the same encoding are equal.
pub proof fn lemma_u32_code_injective(x: u32, y: u32)
    requires
        u32_code(x) == u32_code(y),
    ensures
        x == y,
{
    assert(u32_code(x)[0] == u32_code(y)[0]);
    assert(u32_code(x)[1] == u32_code(y)[1]);
    assert(u32_code(x)[2] == u32_code(y)[2]);
    assert(u32_code(x)[3] == u32_code(y)[3]);
    assert(x == y) by (bit_vector)
        requires
            (x & 0xff) as u8 == (y & 0xff) as u8,
            ((x >> 8u32) & 0xff) as u8 == ((y >> 8u32) & 0xff) as u8,
            ((x >> 16u32) & 0xff) as u8 == ((y >> 16u32) & 0xff) as u8,
            ((x >> 24u32) & 0xff) as u8 == ((y >> 24u32) & 0xff) as u8,
    ;
}

proof fn lemma_le_bytes_len(n: int, k: nat)
    ensures
        le_bytes(n, k).len() == k,
    decreases k,
{
    if k > 0 {
        lemma_le_bytes_len(n / 256, (k - 1) as nat);
    }
}

/// Two strings with the same encoding are the same string.
pub proof fn lemma_string_code_injective(a: Seq<char>, b: Seq<char>)
    requires
        string_code(a) == string_code(b),
    ensures
        a == b,
{
    lemma_le_bytes_len(utf8_of(a).len() as int, 8);
    lemma_le_bytes_len(utf8_of(b).len() as int, 8);
    assert(utf8_of(a) =~= string_code(a).subrange(8, string_code(a).len() as int));
    assert(utf8_of(b) =~= string_code(b).subrange(8, string_code(b).len() as int));
    vstd::utf8::encode_utf8_decode_utf8(a);
    vstd::utf8::encode_utf8_decode_utf8(b);
}

/// Relies on bincode::serialize of a `String`, which writes the byte length
/// as a fixed-width little-endian `u64` followed by the UTF-8 bytes; writing
/// into a `Vec` does not fail.
#[verifier::external_body]
pub(crate) fn encode_term(t: &String) -> (r: Vec<u8>)
    ensures
        r@ == string_code(t@),
{
    match bincode::serialize(t) {
        Ok(v) => v,
        Err(_) => Vec::new(),
    }
}

/// Relies on bincode::deserialize into a `String`: the encoding of a string
/// decodes back to that string.
#[verifier::external_body]
pub(crate) fn decode_term(b: &[u8]) -> (r: Option<String>)
    ensures
        forall|s: Seq<char>| #[trigger] string_code(s) == b@ ==> r is Some && r->0@ == s,
{
    bincode::deserialize::<String>(b).ok()
}

/// Relies on bincode::serialize of a `u32`: its four bytes, least
/// significant first; writing into a `Vec` does not fail.
#[verifier::external_body]
pub(crate) fn encode_item(x: u32) -> (r: Vec<u8>)
    ensures
        r@ == u32_code(x),
{
    match bincode::serialize(&x) {
        Ok(v) => v,
        Err(_) => Vec::new(),
    }
}

/// Relies on bincode::deserialize into a `u32`: it reads the first four
/// bytes, least significant first, and fails on fewer.
#[verifier::external_body]
pub(crate) fn decode_item(b: &[u8]) -> (r: Option<u32>)
    ensures
        b@.len() < 4 ==> r is None,
        forall|x: u32| #[trigger] u32_code(x) == b@ ==> r == Some(x),
{
    bincode::deserialize::<u32>(b).ok()
}

} // verus!

//! Content hashing: the hex-encoded SHA-256 digest that addresses a chunk.

use vstd::prelude::*;
use vstd::slice::slice_index_get;
use vstd::utf8::{
    encode_utf8, encode_utf8_decode_utf8, encode_utf8_valid_utf8, is_ascii_chars,
    is_ascii_chars_encode_utf8, valid_utf8,
};
use sha2::Digest;
use crate::HASH_HEX_LEN;

verus! {

/// The 32-byte SHA-256 digest of `bytes`.
///
/// The digest is a pure function of the input bytes alone. Its algorithmic
/// definition is not restated here; `sha256` below is the sole source of
/// values that this function describes.
pub uninterp spec fn sha256_of(bytes: Seq<u8>) -> Seq<u8>;

/// Relies on `sha2::Sha256::digest`: the 32-byte SHA-256 digest of `data`,
/// a function of `data` alone.
#[verifier::external_body]
fn sha256(data: &[u8]) -> (r: Vec<u8>)
    ensures
        r@ == sha256_of(data@),
        r@.len() == 32,
{
    sha2::Sha256::digest(data).to_vec()
}

/// Relies on `String::from_utf8`: succeeds exactly on valid UTF-8 input and
/// returns the string whose UTF-8 encoding is that input.
#[verifier::external_body]
pub(crate) fn bytes_to_string(v: Vec<u8>) -> (r: Option<String>)
    ensures
        r is Some ==> encode_utf8(r->0@) == v@,
        valid_utf8(v@) ==> r is Some,
{
    String::from_utf8(v).ok()
}

/// The byte of the lowercase hex digit for a value below 16.
pub open spec fn hex_digit_byte(n: u8) -> u8
    recommends
        n < 16,
{
    if n < 10 {
        (48 + n) as u8
    } else {
        (87 + n) as u8
    }
}

/// The lowercase hex digit for a value below 16.
pub open spec fn hex_digit(n: u8) -> char
    recommends
        n < 16,
{
    hex_digit_byte(n) as char
}

/// The `i`-th nibble of `bytes` rendered high-first: the high four bits of a
/// byte come before its low four.
pub open spec fn hex_nibble(bytes: Seq<u8>, i: int) -> u8 {
    if i % 2 == 0 {
        bytes[i / 2] / 16
    } else {
        bytes[i / 2] % 16
    }
}

/// The lowercase hex rendering of `bytes`: two digits per byte, high first.
pub open spec fn hex_of(bytes: Seq<u8>) -> Seq<char> {
    Seq::new(2 * bytes.len(), |i: int| hex_digit(hex_nibble(bytes, i)))
}

/// The hex-encoded SHA-256 digest of `bytes`, as a character sequence.
pub open spec fn sha256_hex_of(bytes: Seq<u8>) -> Seq<char> {
    hex_of(sha256_of(bytes))
}

/// A lowercase hexadecimal digit.
pub open spec fn is_lower_hex_digit(c: char) -> bool {
    ('0' <= c && c <= '9') || ('a' <= c && c <= 'f')
}

/// A well-formed content hash string: exactly `HASH_HEX_LEN` lowercase
/// hexadecimal digits.
pub open spec fn is_hash_str(s: Seq<char>) -> bool {
    &&& s.len() == HASH_HEX_LEN
    &&& forall|i: int| 0 <= i < s.len() ==> is_lower_hex_digit(#[trigger] s[i])
}

/// A hex digit of a value below 16 is a lowercase hex digit character.
proof fn lemma_hex_digit_is_hex(n: u8)
    requires
        n < 16,
    ensures
        is_lower_hex_digit(hex_digit(n)),
        hex_digit(n) as u8 == hex_digit_byte(n),
        hex_digit_byte(n) < 128,
{
}

/// A well-formed hash string contains only ASCII characters.
pub proof fn lemma_hash_str_ascii(s: Seq<char>)
    requires
        is_hash_str(s),
    ensures
        is_ascii_chars(s),
{
}

/// Renders bytes as lowercase hex, two digits per byte, high nibble first.
fn to_hex(bytes: &[u8]) -> (r: String)
    requires
        bytes@.len() * 2 <= usize::MAX,
    ensures
        r@ == hex_of(bytes@),
{
    let n = bytes.len();
    let mut v: Vec<u8> = Vec::new();
    let mut i: usize = 0;
    while i < n
        invariant
            n == bytes@.len(),
            n * 2 <= usize::MAX,
            i <= n,
            v@.len() == 2 * i,
            forall|j: int|
                0 <= j < v@.len() ==> (#[trigger] v@[j]) == hex_digit_byte(
                    hex_nibble(bytes@, j),
                ),
        decreases n - i,
    {
        let b = *slice_index_get(bytes, i);
        let hi = b / 16;
        let lo = b % 16;
        v.push(if hi < 10 {
            48 + hi
        } else {
            87 + hi
        });
        v.push(if lo < 10 {
            48 + lo
        } else {
            87 + lo
        });
        proof {
            assert(hex_nibble(bytes@, 2 * i as int) == hi);
            assert(hex_nibble(bytes@, 2 * i as int + 1) == lo);
        }
        i = i + 1;
    }
    let ghost c = hex_of(bytes@);
    proof {
        assert forall|j: int| 0 <= j < c.len() implies '\0' <= #[trigger] c[j] <= '\u{7f}' by {
            lemma_hex_digit_is_hex(hex_nibble(bytes@, j));
        }
        assert(is_ascii_chars(c));
        is_ascii_chars_encode_utf8(c);
        assert forall|j: int| 0 <= j < v@.len() implies v@[j] == #[trigger] encode_utf8(c)[j] by {
            lemma_hex_digit_is_hex(hex_nibble(bytes@, j));
        }
        assert(encode_utf8(c) =~= v@);
        encode_utf8_valid_utf8(c);
    }
    match bytes_to_string(v) {
        Some(s) => {
            proof {
                encode_utf8_decode_utf8(s@);
                encode_utf8_decode_utf8(c);
            }
            s
        },
        None => vstd::pervasive::unreached(),
    }
}

/// The hex-encoded SHA-256 digest of `data`: 64 lowercase hex characters.
pub(crate) fn sha256_hex(data: &[u8]) -> (r: String)
    ensures
        r@ == sha256_hex_of(data@),
        is_hash_str(r@),
{
    let digest = sha256(data);
    let r = to_hex(digest.as_slice());
    proof {
        assert forall|i: int| 0 <= i < r@.len() implies is_lower_hex_digit(#[trigger] r@[i]) by {
            lemma_hex_digit_is_hex(hex_nibble(sha256_of(data@), i));
        }
    }
    r
}

/// Decides whether `s` is a well-formed content hash string.
pub fn check_hash_str(s: &str) -> (r: bool)
    ensures
        r == is_hash_str(s@),
{
    let len = s.unicode_len();
    if len != HASH_HEX_LEN {
        return false;
    }
    let mut i: usize = 0;
    while i < len
        invariant
            len == s@.len(),
            len == HASH_HEX_LEN,
            i <= len,
            forall|j: int| 0 <= j < i ==> is_lower_hex_digit(#[trigger] s@[j]),
        decreases len - i,
    {
        let c = s.get_char(i);
        if !(('0' <= c && c <= '9') || ('a' <= c && c <= 'f')) {
            return false;
        }
        i = i + 1;
    }
    true
}

} // verus!

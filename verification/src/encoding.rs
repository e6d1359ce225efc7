//! Base64 without padding (RFC 4648), in its standard and its URL-safe alphabet:
//! what the text of a byte sequence is, and the calls that produce and read it.

use vstd::prelude::*;
use vstd::utf8::encode_utf8;

verus! {

/// The symbol for a six-bit value, in an alphabet that ends in `c62` and `c63`.
pub open spec fn symbol(v: int, c62: char, c63: char) -> char {
    if v < 26 {
        ('A' as int + v) as char
    } else if v < 52 {
        ('a' as int + (v - 26)) as char
    } else if v < 62 {
        ('0' as int + (v - 52)) as char
    } else if v == 62 {
        c62
    } else {
        c63
    }
}

/// Byte `k`, or zero past the end.
pub open spec fn byte_or_zero(bytes: Seq<u8>, k: int) -> int {
    if k < bytes.len() {
        bytes[k] as int
    } else {
        0
    }
}

/// Group `i` of six bits: three bytes hold four groups, the most significant
/// bits first.
pub open spec fn sextet(bytes: Seq<u8>, i: int) -> int {
    let b0 = byte_or_zero(bytes, i / 4 * 3);
    let b1 = byte_or_zero(bytes, i / 4 * 3 + 1);
    let b2 = byte_or_zero(bytes, i / 4 * 3 + 2);
    if i % 4 == 0 {
        b0 / 4
    } else if i % 4 == 1 {
        b0 % 4 * 16 + b1 / 16
    } else if i % 4 == 2 {
        b1 % 16 * 4 + b2 / 64
    } else {
        b2 % 64
    }
}

/// The Base64 text of a byte sequence: one symbol for each group that holds a
/// bit of it.
pub open spec fn base64_text(bytes: Seq<u8>, c62: char, c63: char) -> Seq<char> {
    Seq::new((4 * bytes.len() + 2) / 3, |i: int| symbol(sextet(bytes, i), c62, c63))
}

/// Base64 text in the standard alphabet.
pub open spec fn base64_standard(bytes: Seq<u8>) -> Seq<char> {
    base64_text(bytes, '+', '/')
}

/// Base64 text in the URL-safe alphabet.
pub open spec fn base64_url(bytes: Seq<u8>) -> Seq<char> {
    base64_text(bytes, '-', '_')
}

/// The reason for which a text is not Base64, as `base64` gives it.
#[verifier::external_type_specification]
#[verifier::external_body]
pub struct ExDecodeError(base64::DecodeError);

/// Reads URL-safe Base64 text with `base64::Engine::decode` on the engine
/// `URL_SAFE_NO_PAD`. Taken on trust: it gives bytes back exactly for the texts
/// that are the Base64 text of some bytes, and then those bytes; padding,
/// symbols of other alphabets, a lone last symbol and stray bits in the last
/// symbol are errors.
#[verifier::external_body]
pub(crate) fn url_safe_decode(text: &str) -> (decoded: Result<Vec<u8>, base64::DecodeError>)
    ensures
        match decoded {
            Ok(bytes) => text@ == base64_url(bytes@),
            Err(_) => forall|bytes: Seq<u8>| text@ != #[trigger] base64_url(bytes),
        },
{
    base64::Engine::decode(&base64::engine::general_purpose::URL_SAFE_NO_PAD, text)
}

/// Writes four bytes as standard Base64 text with `base64::Engine::encode` on
/// the engine `STANDARD_NO_PAD`. Taken on trust: the result is the Base64 text
/// of the bytes, without padding.
#[verifier::external_body]
pub(crate) fn standard_encode(bytes: &[u8; 4]) -> (text: String)
    ensures
        text@ == base64_standard(bytes@),
{
    base64::Engine::encode(&base64::engine::general_purpose::STANDARD_NO_PAD, bytes)
}

/// Two six-bit values with the same symbol are the same, where the last two
/// symbols of the alphabet are neither letters nor digits nor each other.
proof fn lemma_symbol_injective(v: int, w: int, c62: char, c63: char)
    requires
        0 <= v < 64,
        0 <= w < 64,
        (c62 == '+' && c63 == '/') || (c62 == '-' && c63 == '_'),
        symbol(v, c62, c63) == symbol(w, c62, c63),
    ensures
        v == w,
{
}

proof fn lemma_sextet_range(bytes: Seq<u8>, i: int)
    requires
        i >= 0,
    ensures
        0 <= sextet(bytes, i) < 64,
{
}

/// Byte `k` is made of the bits of two neighbouring groups.
proof fn lemma_byte_from_sextets(bytes: Seq<u8>, k: int)
    requires
        0 <= k < bytes.len(),
    ensures
        ({
            let i = k / 3 * 4 + k % 3;
            &&& i + 1 < (4 * bytes.len() + 2) / 3
            &&& bytes[k] as int == if k % 3 == 0 {
                sextet(bytes, i) * 4 + sextet(bytes, i + 1) / 16
            } else if k % 3 == 1 {
                sextet(bytes, i) % 16 * 16 + sextet(bytes, i + 1) / 4
            } else {
                sextet(bytes, i) % 4 * 64 + sextet(bytes, i + 1)
            }
        }),
{
    let q = k / 3;
    let i = q * 4 + k % 3;
    assert(i / 4 == q);
    assert(i % 4 == k % 3);
    assert((i + 1) / 4 == q);
    assert((i + 1) % 4 == k % 3 + 1);
}

/// Base64 loses nothing: two byte sequences with the same text are the same.
pub proof fn law_base64_injective(x: Seq<u8>, y: Seq<u8>, c62: char, c63: char)
    requires
        (c62 == '+' && c63 == '/') || (c62 == '-' && c63 == '_'),
        base64_text(x, c62, c63) == base64_text(y, c62, c63),
    ensures
        x == y,
{
    let n = (4 * x.len() + 2) / 3;
    assert(base64_text(x, c62, c63).len() == n);
    assert(base64_text(y, c62, c63).len() == (4 * y.len() + 2) / 3);
    assert(x.len() == y.len());
    assert forall|i: int| 0 <= i < n implies sextet(x, i) == sextet(y, i) by {
        assert(base64_text(x, c62, c63)[i] == symbol(sextet(x, i), c62, c63));
        assert(base64_text(y, c62, c63)[i] == symbol(sextet(y, i), c62, c63));
        lemma_sextet_range(x, i);
        lemma_sextet_range(y, i);
        lemma_symbol_injective(sextet(x, i), sextet(y, i), c62, c63);
    }
    assert forall|k: int| 0 <= k < x.len() implies x[k] == y[k] by {
        lemma_byte_from_sextets(x, k);
        lemma_byte_from_sextets(y, k);
    }
    assert(x =~= y);
}

/// All symbols are ASCII: the URL-safe text of `n` bytes is `(4 * n + 2) / 3`
/// bytes long.
pub proof fn law_base64_length(bytes: Seq<u8>)
    ensures
        encode_utf8(base64_url(bytes)).len() == (4 * bytes.len() + 2) / 3,
{
    let text = base64_url(bytes);
    assert forall|i: int| 0 <= i < text.len() implies (#[trigger] text[i] as nat) < 128 by {
        lemma_sextet_range(bytes, i);
    }
    vstd::utf8::is_ascii_chars_encode_utf8(text);
}

proof fn lemma_group(b0: int, b1: int, b2: int)
    requires
        0 <= b0 < 256,
        0 <= b1 < 256,
        0 <= b2 < 256,
    ensures
        (b0 * 256 + b1) * 256 + b2 == ((b0 / 4 * 64 + (b0 % 4 * 16 + b1 / 16)) * 64 + (b1 % 16 * 4
            + b2 / 64)) * 64 + b2 % 64,
{
}

/// Three bytes and the four six-bit values in their place make up the same
/// number; bytes past the end count as zero.
pub proof fn law_base64_groups(bytes: Seq<u8>, q: int)
    requires
        0 <= 3 * q < bytes.len(),
    ensures
        0 <= sextet(bytes, 4 * q) < 64,
        0 <= sextet(bytes, 4 * q + 1) < 64,
        0 <= sextet(bytes, 4 * q + 2) < 64,
        0 <= sextet(bytes, 4 * q + 3) < 64,
        ({
            let b0 = bytes[3 * q] as int;
            let b1 = if 3 * q + 1 < bytes.len() {
                bytes[3 * q + 1] as int
            } else {
                0
            };
            let b2 = if 3 * q + 2 < bytes.len() {
                bytes[3 * q + 2] as int
            } else {
                0
            };
            (b0 * 256 + b1) * 256 + b2 == ((sextet(bytes, 4 * q) * 64 + sextet(bytes, 4 * q + 1))
                * 64 + sextet(bytes, 4 * q + 2)) * 64 + sextet(bytes, 4 * q + 3)
        }),
{
    assert((4 * q) / 4 == q && (4 * q + 1) / 4 == q);
    assert((4 * q + 2) / 4 == q && (4 * q + 3) / 4 == q);
    lemma_group(
        byte_or_zero(bytes, 3 * q),
        byte_or_zero(bytes, 3 * q + 1),
        byte_or_zero(bytes, 3 * q + 2),
    );
}

/// A text has the fewest symbols of six bits that hold the bits of the bytes.
pub proof fn law_base64_is_shortest(bytes: Seq<u8>)
    ensures
        8 * bytes.len() <= 6 * base64_standard(bytes).len() < 8 * bytes.len() + 6,
        8 * bytes.len() <= 6 * base64_url(bytes).len() < 8 * bytes.len() + 6,
{
}

/// Each symbol is the one at the place of its six-bit value in the alphabet.
pub proof fn law_base64_alphabets(bytes: Seq<u8>, i: int)
    requires
        0 <= i < (4 * bytes.len() + 2) / 3,
    ensures
        base64_standard(bytes)[i]
            == "ABCDEFGHIJKLMNOPQRSTUVWXYZabcdefghijklmnopqrstuvwxyz0123456789+/"@[sextet(
            bytes,
            i,
        )],
        base64_url(bytes)[i]
            == "ABCDEFGHIJKLMNOPQRSTUVWXYZabcdefghijklmnopqrstuvwxyz0123456789-_"@[sextet(
            bytes,
            i,
        )],
{
    reveal_strlit("ABCDEFGHIJKLMNOPQRSTUVWXYZabcdefghijklmnopqrstuvwxyz0123456789+/");
    reveal_strlit("ABCDEFGHIJKLMNOPQRSTUVWXYZabcdefghijklmnopqrstuvwxyz0123456789-_");
    lemma_sextet_range(bytes, i);
    let v = sextet(bytes, i);
    assert(base64_standard(bytes)[i] == symbol(v, '+', '/'));
    assert(base64_url(bytes)[i] == symbol(v, '-', '_'));
}

} // verus!

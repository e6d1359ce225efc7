//! The message that a Hashcash proof hashes: a four-byte nonce, then the token
//! over and over. This module says what the message is and which 64-byte blocks
//! SHA-256 cuts it into.

use crate::sha_model::{absorb, be_bytes, block_at, compress, padded, sha256_words, H256_256};
use vstd::prelude::*;

verus! {

/// Length of a token in bytes.
pub const TOKEN_LEN: usize = 48;

/// How often the token occurs in a message.
pub const COPIES: usize = 262_144;

/// Length of the nonce that a message starts with.
pub const PREFIX_LEN: usize = 4;

/// Length of a SHA-256 block in bytes.
pub const SHA256_BLOCK_LEN: usize = 64;

/// Length of a message in bytes.
pub const MESSAGE_LEN: usize = PREFIX_LEN + COPIES * TOKEN_LEN;

/// Number of blocks that hold message bytes alone.
pub const FULL_DATA_BLOCKS: usize = MESSAGE_LEN / SHA256_BLOCK_LEN;

/// Number of such blocks that do not hold the nonce.
pub const FIXED_BLOCKS_AFTER_FIRST: usize = FULL_DATA_BLOCKS - 1;

/// How often the three repeating blocks occur in full.
pub const PATTERN_REPEATS: usize = FIXED_BLOCKS_AFTER_FIRST / 3;

/// How many of the three follow the last full repetition.
pub const PATTERN_TAIL: usize = FIXED_BLOCKS_AFTER_FIRST % 3;

/// Length of a message in bits.
pub const MESSAGE_BITS: u64 = (MESSAGE_LEN as u64) * 8;

/// `n` copies of `s`, one after the other.
pub open spec fn repeated(s: Seq<u8>, n: nat) -> Seq<u8> {
    Seq::new(n * s.len(), |i: int| s[i % s.len() as int])
}

/// The message for a nonce and a token.
pub open spec fn message(nonce: Seq<u8>, token: Seq<u8>) -> Seq<u8> {
    nonce + repeated(token, COPIES as nat)
}

/// The little-endian form of a nonce.
pub open spec fn nonce_bytes(nonce: u32) -> Seq<u8> {
    seq![
        (nonce % 256) as u8,
        (nonce / 256 % 256) as u8,
        (nonce / 65536 % 256) as u8,
        (nonce / 16777216) as u8,
    ]
}

/// The nonce of four zero bytes.
pub open spec fn zero_nonce() -> Seq<u8> {
    seq![0u8, 0u8, 0u8, 0u8]
}

/// The first block: the nonce, then the token from its start.
pub open spec fn opening_block(nonce: Seq<u8>, token: Seq<u8>) -> Seq<u8> {
    Seq::new(
        64,
        |i: int|
            if i < 4 {
                nonce[i]
            } else {
                token[(i - 4) % 48]
            },
    )
}

/// A block of token bytes alone, starting at the token's byte `start`.
pub open spec fn token_block(token: Seq<u8>, start: int) -> Seq<u8> {
    Seq::new(64, |i: int| token[(start + i) % 48])
}

/// The last block: the last four bytes of the token, then the padding.
pub open spec fn closing_block(token: Seq<u8>) -> Seq<u8> {
    token.subrange(44, 48) + seq![0x80u8] + Seq::new(51, |i: int| 0u8) + be_bytes(
        MESSAGE_BITS as nat,
        8,
    )
}

/// Everything that is hashed after the first block.
pub open spec fn fixed_part(token: Seq<u8>) -> Seq<u8> {
    padded(message(zero_nonce(), token)).skip(64)
}

/// The hash value after all blocks that follow the first.
pub open spec fn absorb_fixed(hash: Seq<u32>, token: Seq<u8>) -> Seq<u32> {
    absorb(hash, fixed_part(token), (FIXED_BLOCKS_AFTER_FIRST + 1) as nat)
}

/// The constants have the values that the block layout calls for.
proof fn lemma_constants()
    ensures
        MESSAGE_LEN == 12_582_916,
        FULL_DATA_BLOCKS == 196_608,
        FIXED_BLOCKS_AFTER_FIRST == 196_607,
        PATTERN_REPEATS == 65_535,
        PATTERN_TAIL == 2,
        MESSAGE_BITS == 8 * MESSAGE_LEN,
{
}

/// The padded message: the message, `0x80`, 51 zeros and the length in bits.
proof fn lemma_padded(nonce: Seq<u8>, token: Seq<u8>)
    requires
        nonce.len() == 4,
        token.len() == 48,
    ensures
        message(nonce, token).len() == MESSAGE_LEN,
        padded(message(nonce, token)) == message(nonce, token) + seq![0x80u8] + Seq::new(
            51,
            |i: int| 0u8,
        ) + be_bytes(MESSAGE_BITS as nat, 8),
        padded(message(nonce, token)).len() == 64 * (FULL_DATA_BLOCKS + 1),
{
    lemma_constants();
    let m = message(nonce, token);
    assert(m.len() == 12_582_916);
    assert(m.len() % 64 == 4);
    assert((119 - m.len() % 64) % 64 == 51);
    assert(8 * m.len() == MESSAGE_BITS);
}

/// The first block holds the nonce; no other block does.
proof fn lemma_opening_block(nonce: Seq<u8>, token: Seq<u8>)
    requires
        nonce.len() == 4,
        token.len() == 48,
    ensures
        block_at(padded(message(nonce, token)), 0) == opening_block(nonce, token),
{
    lemma_padded(nonce, token);
    assert(block_at(padded(message(nonce, token)), 0) =~= opening_block(nonce, token));
}

/// Offsets into the repeated token may be reduced before or after adding.
proof fn lemma_offset(at: int, i: int)
    ensures
        (at % 48 + i) % 48 == (at + i) % 48,
{
    vstd::arithmetic::div_mod::lemma_add_mod_noop(at, i, 48);
    vstd::arithmetic::div_mod::lemma_add_mod_noop(at % 48, i, 48);
    vstd::arithmetic::div_mod::lemma_mod_twice(at, 48);
}

/// Block `k` starts at the token's byte `(64 * k - 4) % 48`.
proof fn lemma_token_block(nonce: Seq<u8>, token: Seq<u8>, k: int)
    requires
        nonce.len() == 4,
        token.len() == 48,
        1 <= k < FULL_DATA_BLOCKS,
    ensures
        block_at(padded(message(nonce, token)), k) == token_block(token, (64 * k - 4) % 48),
{
    lemma_padded(nonce, token);
    let data = padded(message(nonce, token));
    let start = (64 * k - 4) % 48;
    assert forall|i: int| 0 <= i < 64 implies block_at(data, k)[i] == token_block(token, start)[i] by {
        lemma_offset(64 * k - 4, i);
        assert(data[64 * k + i] == repeated(token, COPIES as nat)[64 * k + i - 4]);
    }
    assert(block_at(data, k) =~= token_block(token, start));
}

proof fn lemma_closing_block(nonce: Seq<u8>, token: Seq<u8>)
    requires
        nonce.len() == 4,
        token.len() == 48,
    ensures
        block_at(padded(message(nonce, token)), FULL_DATA_BLOCKS as int) == closing_block(token),
{
    lemma_padded(nonce, token);
    lemma_constants();
    let data = padded(message(nonce, token));
    assert(block_at(data, 196_608) =~= closing_block(token));
}

/// The block layout: the first block holds the nonce, the blocks after it
/// repeat the token from its bytes 12, 28 and 44 in turn, and the last block
/// ends the message and holds the padding.
pub proof fn law_block_layout(nonce: Seq<u8>, token: Seq<u8>, k: int)
    requires
        nonce.len() == PREFIX_LEN,
        token.len() == TOKEN_LEN,
        0 <= k <= FULL_DATA_BLOCKS,
    ensures
        padded(message(nonce, token)).len() == SHA256_BLOCK_LEN * (FULL_DATA_BLOCKS + 1),
        block_at(padded(message(nonce, token)), k) == if k == 0 {
            opening_block(nonce, token)
        } else if k == FULL_DATA_BLOCKS {
            closing_block(token)
        } else if k % 3 == 1 {
            token_block(token, 12)
        } else if k % 3 == 2 {
            token_block(token, 28)
        } else {
            token_block(token, 44)
        },
{
    lemma_padded(nonce, token);
    if k == 0 {
        lemma_opening_block(nonce, token);
    } else if k == FULL_DATA_BLOCKS {
        lemma_closing_block(nonce, token);
    } else {
        lemma_token_block(nonce, token, k);
        let q = k / 3;
        if k % 3 == 1 {
            assert(64 * k - 4 == 48 * (4 * q + 1) + 12);
        } else if k % 3 == 2 {
            assert(64 * k - 4 == 48 * (4 * q + 2) + 28);
        } else {
            assert(64 * k - 4 == 48 * (4 * q - 1) + 44);
        }
    }
}

/// The nonce enters the hash through the first block alone: all blocks after it
/// are those of the token.
pub proof fn law_fixed_part(hash: Seq<u32>, nonce: Seq<u8>, token: Seq<u8>, n: nat)
    requires
        nonce.len() == PREFIX_LEN,
        token.len() == TOKEN_LEN,
        n <= FULL_DATA_BLOCKS,
    ensures
        absorb(hash, padded(message(nonce, token)), n + 1) == absorb(
            compress(hash, opening_block(nonce, token)),
            fixed_part(token),
            n,
        ),
    decreases n,
{
    let data = padded(message(nonce, token));
    if n == 0 {
        law_block_layout(nonce, token, 0);
        assert(absorb(hash, data, 0) == hash);
    } else {
        law_fixed_part(hash, nonce, token, (n - 1) as nat);
        law_block_layout(nonce, token, n as int);
        law_block_layout(zero_nonce(), token, n as int);
        assert(block_at(fixed_part(token), n - 1) =~= block_at(
            padded(message(zero_nonce(), token)),
            n as int,
        ));
    }
}

/// SHA-256 of a message is one compression of its first block, followed by the
/// blocks that depend on the token alone.
pub proof fn law_hash_of_message(nonce: Seq<u8>, token: Seq<u8>)
    requires
        nonce.len() == PREFIX_LEN,
        token.len() == TOKEN_LEN,
    ensures
        sha256_words(message(nonce, token)) == absorb_fixed(
            compress(H256_256@, opening_block(nonce, token)),
            token,
        ),
{
    lemma_constants();
    lemma_padded(nonce, token);
    law_fixed_part(H256_256@, nonce, token, FULL_DATA_BLOCKS as nat);
}

/// Repeating a text no times gives nothing, and once more puts it in front.
pub proof fn law_repeated(s: Seq<u8>, n: nat)
    requires
        s.len() > 0,
    ensures
        repeated(s, 0) == Seq::<u8>::empty(),
        repeated(s, n + 1) == s + repeated(s, n),
{
    let len = s.len() as int;
    assert((n + 1) * len == n * len + len) by (nonlinear_arith);
    assert(n * len >= 0) by (nonlinear_arith)
        requires
            len > 0,
    ;
    assert forall|i: int| 0 <= i < n * len + len implies repeated(s, n + 1)[i] == (s + repeated(
        s,
        n,
    ))[i] by {
        if i < len {
            vstd::arithmetic::div_mod::lemma_small_mod(i as nat, len as nat);
        } else {
            vstd::arithmetic::div_mod::lemma_mod_add_multiples_vanish(i - len, len);
        }
    }
    assert(repeated(s, n + 1) =~= s + repeated(s, n));
    assert(0 * len == 0);
    assert(repeated(s, 0) =~= Seq::<u8>::empty());
}

/// A message is the nonce, then 262144 copies of the token, and nothing else.
pub proof fn law_message_layout(nonce: Seq<u8>, token: Seq<u8>, k: int)
    requires
        nonce.len() == 4,
        token.len() == 48,
        0 <= k < 262_144,
    ensures
        message(nonce, token).len() == 4 + 48 * 262_144,
        message(nonce, token).take(4) == nonce,
        message(nonce, token).subrange(4 + 48 * k, 4 + 48 * k + 48) == token,
{
    let m = message(nonce, token);
    assert(m.take(4) =~= nonce);
    assert forall|i: int| 0 <= i < 48 implies m[4 + 48 * k + i] == token[i] by {
        assert((48 * k + i) % 48 == i);
    }
    assert(m.subrange(4 + 48 * k, 4 + 48 * k + 48) =~= token);
}

/// No other text is the nonce, then 262144 copies of the token.
pub proof fn law_message_unique(nonce: Seq<u8>, token: Seq<u8>, text: Seq<u8>)
    requires
        nonce.len() == 4,
        token.len() == 48,
        text.len() == 4 + 48 * 262_144,
        text.take(4) == nonce,
        forall|k: int|
            0 <= k < 262_144 ==> #[trigger] text.subrange(4 + 48 * k, 4 + 48 * k + 48) == token,
    ensures
        text == message(nonce, token),
{
    let m = message(nonce, token);
    law_message_layout(nonce, token, 0);
    assert forall|i: int| 0 <= i < text.len() implies text[i] == m[i] by {
        if i < 4 {
            assert(text.take(4)[i] == nonce[i]);
        } else {
            let k = (i - 4) / 48;
            let j = (i - 4) % 48;
            assert(text.subrange(4 + 48 * k, 4 + 48 * k + 48)[j] == token[j]);
            assert(4 + 48 * k + j == i);
        }
    }
    assert(text =~= m);
}

/// A nonce is written as four bytes, the least significant first.
pub proof fn law_nonce_bytes(nonce: u32)
    ensures
        nonce_bytes(nonce).len() == 4,
        nonce == nonce_bytes(nonce)[0] + 256 * (nonce_bytes(nonce)[1] + 256 * (nonce_bytes(nonce)[2]
            + 256 * nonce_bytes(nonce)[3])),
{
}

/// Any four bytes are those of one nonce, the number that they make up.
pub proof fn law_nonce_of_bytes(nonce: u32, bytes: Seq<u8>)
    requires
        bytes.len() == 4,
        nonce == bytes[0] + 256 * (bytes[1] + 256 * (bytes[2] + 256 * bytes[3])),
    ensures
        nonce_bytes(nonce) == bytes,
{
    assert(nonce / 256 == bytes[1] + 256 * (bytes[2] + 256 * bytes[3]));
    assert(nonce / 65536 == bytes[2] + 256 * bytes[3]);
    assert(nonce_bytes(nonce) =~= bytes);
}

/// The first block ends twelve bytes into the second copy of the token.
pub proof fn law_opening_block(nonce: Seq<u8>, token: Seq<u8>)
    requires
        nonce.len() == 4,
        token.len() == 48,
    ensures
        opening_block(nonce, token) == nonce + token + token.take(12),
        opening_block(nonce, token) == padded(message(nonce, token)).take(64),
{
    assert(opening_block(nonce, token) =~= nonce + token + token.take(12));
    lemma_opening_block(nonce, token);
}

/// A block of token bytes is a stretch of three copies of the token.
pub proof fn law_token_block(token: Seq<u8>, start: int)
    requires
        token.len() == 48,
        0 <= start < 48,
    ensures
        token_block(token, start) == (token + token + token).subrange(start, start + 64),
{
    let three = token + token + token;
    assert forall|i: int| 0 <= i < 64 implies token_block(token, start)[i] == three[start + i] by {}
    assert(token_block(token, start) =~= three.subrange(start, start + 64));
}

/// The last block is what is left of the padded message, whatever the nonce.
pub proof fn law_closing_block(nonce: Seq<u8>, token: Seq<u8>)
    requires
        nonce.len() == 4,
        token.len() == 48,
    ensures
        closing_block(token) == padded(message(nonce, token)).skip(64 * 196_608int),
        closing_block(token).len() == 64,
        closing_block(token).take(4) == token.skip(44),
{
    lemma_constants();
    lemma_padded(nonce, token);
    lemma_closing_block(nonce, token);
    let data = padded(message(nonce, token));
    assert(data.skip(64 * 196_608int) =~= block_at(data, 196_608));
    assert(closing_block(token).take(4) =~= token.skip(44));
}

/// What follows the first block is the same for all nonces, and so is what it
/// makes of a hash value.
pub proof fn law_absorb_fixed(hash: Seq<u32>, nonce: Seq<u8>, token: Seq<u8>)
    requires
        nonce.len() == 4,
        token.len() == 48,
    ensures
        fixed_part(token) == padded(message(nonce, token)).skip(64),
        absorb_fixed(hash, token) == absorb(
            hash,
            padded(message(nonce, token)).skip(64),
            196_608,
        ),
{
    lemma_constants();
    lemma_padded(nonce, token);
    lemma_padded(zero_nonce(), token);
    assert(fixed_part(token) =~= padded(message(nonce, token)).skip(64));
}

/// `len` bytes of the repeated token, from its byte `start` on.
pub open spec fn token_run(token: Seq<u8>, start: int, len: nat) -> Seq<u8> {
    Seq::new(len, |i: int| token[(start + i) % 48])
}

/// A run of token bytes is a stretch of enough copies of the token.
pub proof fn law_token_run(token: Seq<u8>, start: int, len: nat, copies: nat)
    requires
        token.len() == 48,
        0 <= start,
        start + len <= 48 * copies,
    ensures
        token_run(token, start, len) == repeated(token, copies).subrange(start, start + len),
{
    assert(token_run(token, start, len) =~= repeated(token, copies).subrange(start, start + len));
}

} // verus!

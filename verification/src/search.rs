//! The search for a nonce.

use crate::blocks::{compress_fixed_blocks_soft, HashcashBlocks};
use crate::message::{
    absorb_fixed, law_hash_of_message, law_message_unique, law_nonce_of_bytes, message, nonce_bytes,
    opening_block, TOKEN_LEN,
};
use crate::sha256::{
    compress_schedule_soft, lemma_keyed_compress, schedule_block, Schedule, State,
};
use crate::sha_model::{be_byte, be_word, compress, sha256, sha256_words, H256_256};
use vstd::prelude::*;

verus! {

/// The first four bytes of the SHA-256 digest of the message for a token and a
/// nonce, as a big-endian word.
pub open spec fn leading_word(token: Seq<u8>, nonce: u32) -> u32 {
    be_word(sha256(message(nonce_bytes(nonce), token)), 0)
}

/// Whether a nonce solves the puzzle that a token and a threshold pose.
pub open spec fn solves(token: Seq<u8>, threshold: u32, nonce: u32) -> bool {
    leading_word(token, nonce) <= threshold
}

/// The position of a nonce in the order of the search: one comes first, zero
/// comes last.
pub open spec fn rank(nonce: u32) -> int {
    if nonce == 0 {
        0x1_0000_0000
    } else {
        nonce as int
    }
}

/// Whether a nonce is the first in the order of the search that solves a puzzle.
pub open spec fn is_first_solution(token: Seq<u8>, threshold: u32, nonce: u32) -> bool {
    &&& solves(token, threshold, nonce)
    &&& forall|other: u32| rank(other) < rank(nonce) ==> !#[trigger] solves(token, threshold, other)
}

/// A search can end with one nonce only.
pub proof fn law_first_solution_unique(token: Seq<u8>, bound: u32, m: u32, n: u32)
    requires
        is_first_solution(token, bound, m),
        is_first_solution(token, bound, n),
    ensures
        m == n,
{
    if rank(m) < rank(n) {
        assert(!solves(token, bound, m));
    } else if rank(n) < rank(m) {
        assert(!solves(token, bound, n));
    }
}

/// The search starts at one, and each nonce is followed by the next, the
/// greatest by zero.
pub proof fn law_search_order(nonce: u32)
    requires
        nonce != 0,
    ensures
        rank(1) == 1,
        nonce < u32::MAX ==> rank((nonce + 1) as u32) == rank(nonce) + 1,
        nonce == u32::MAX ==> rank(0) == rank(nonce) + 1,
{
}

/// What decides is the number that the first four bytes of a digest make up:
/// that of the text which is the nonce, least significant byte first, then
/// 262144 copies of the token.
pub proof fn law_leading_word(token: Seq<u8>, nonce: u32, text: Seq<u8>)
    requires
        token.len() == 48,
        text.len() == 4 + 48 * 262_144,
        nonce == text[0] + 256 * (text[1] + 256 * (text[2] + 256 * text[3])),
        forall|k: int|
            0 <= k < 262_144 ==> #[trigger] text.subrange(4 + 48 * k, 4 + 48 * k + 48) == token,
    ensures
        leading_word(token, nonce) == ((sha256(text)[0] * 256 + sha256(text)[1]) * 256 + sha256(
            text,
        )[2]) * 256 + sha256(text)[3],
{
    law_nonce_of_bytes(nonce, text.take(4));
    law_message_unique(text.take(4), token, text);
}

/// A nonce solves a puzzle where the threshold is its leading word or more, and
/// nowhere else.
pub proof fn law_least_threshold(token: Seq<u8>, threshold: u32, nonce: u32)
    ensures
        solves(token, leading_word(token, nonce), nonce),
        threshold < leading_word(token, nonce) ==> !solves(token, threshold, nonce),
        threshold > leading_word(token, nonce) ==> solves(token, threshold, nonce),
{
}

/// The first solution solves the puzzle, and no other solution comes before it.
pub proof fn law_first_solution_is_least(token: Seq<u8>, threshold: u32, first: u32, other: u32)
    requires
        is_first_solution(token, threshold, first),
        solves(token, threshold, other),
    ensures
        solves(token, threshold, first),
        rank(first) <= rank(other),
{
}

/// A puzzle with a solution has a first one.
pub proof fn law_first_solution_exists(token: Seq<u8>, threshold: u32, nonce: u32)
    requires
        solves(token, threshold, nonce),
    ensures
        exists|first: u32| #[trigger] is_first_solution(token, threshold, first),
    decreases rank(nonce),
{
    if !is_first_solution(token, threshold, nonce) {
        let earlier = choose|other: u32|
            rank(other) < rank(nonce) && #[trigger] solves(token, threshold, other);
        law_first_solution_exists(token, threshold, earlier);
    }
}

/// The digest starts with the first word of the final hash value.
proof fn lemma_digest_start(message: Seq<u8>)
    ensures
        be_word(sha256(message), 0) == sha256_words(message)[0],
{
    let x = sha256_words(message)[0] as nat;
    let digest = sha256(message);
    reveal_with_fuel(be_byte, 5);
    assert(digest[0] == (x / 0x100_0000 % 256) as u8);
    assert(digest[1] == (x / 0x1_0000 % 256) as u8);
    assert(digest[2] == (x / 0x100 % 256) as u8);
    assert(digest[3] == (x % 256) as u8);
}

/// The hash value whose first word decides whether a nonce solves a puzzle.
proof fn lemma_leading_word(token: Seq<u8>, nonce: u32)
    requires
        token.len() == TOKEN_LEN,
    ensures
        leading_word(token, nonce) == absorb_fixed(
            compress(H256_256@, opening_block(nonce_bytes(nonce), token)),
            token,
        )[0],
{
    law_hash_of_message(nonce_bytes(nonce), token);
    lemma_digest_start(message(nonce_bytes(nonce), token));
}

/// The first word of the digest for a nonce, from the precomputed blocks.
pub fn digest_word(blocks: &HashcashBlocks, nonce: u32) -> (w: u32)
    ensures
        w == leading_word(blocks@, nonce),
{
    let first_block: [u8; 64] = blocks.first_block_with(nonce);
    let first_schedule: Schedule = schedule_block(&first_block);
    let mut state: State = H256_256;
    proof {
        blocks.lemma_token_len();
        lemma_keyed_compress(H256_256@, opening_block(nonce_bytes(nonce), blocks@));
        lemma_leading_word(blocks@, nonce);
    }
    compress_schedule_soft(&mut state, &first_schedule);
    compress_fixed_blocks_soft(&mut state, blocks);
    state[0]
}

/// Tries all nonces, from one up to the greatest and then zero, and returns the
/// first that solves the puzzle, if any does.
pub fn find_nonce(blocks: &HashcashBlocks, threshold: u32) -> (found: Option<u32>)
    ensures
        match found {
            Some(nonce) => is_first_solution(blocks@, threshold, nonce),
            None => forall|nonce: u32| !#[trigger] solves(blocks@, threshold, nonce),
        },
{
    let mut nonce: u32 = 0;
    loop
        invariant
            forall|other: u32|
                0 < other <= nonce ==> !#[trigger] solves(blocks@, threshold, other),
        decreases u32::MAX - nonce,
    {
        let last: bool = nonce == u32::MAX;
        nonce = nonce.wrapping_add(1);
        if digest_word(blocks, nonce) <= threshold {
            return Some(nonce);
        }
        if last {
            return None;
        }
    }
}

/// Returns the first nonce that solves the puzzle, which must have a solution;
/// [`find_nonce`] takes any puzzle.
pub fn search_hashcash_soft(blocks: &HashcashBlocks, threshold: u32) -> (nonce: u32)
    requires
        exists|n: u32| #[trigger] solves(blocks@, threshold, n),
    ensures
        is_first_solution(blocks@, threshold, nonce),
{
    find_nonce(blocks, threshold).unwrap()
}

/// Returns the first nonce that solves the puzzle, which must have a solution.
pub fn search_hashcash(blocks: &HashcashBlocks, threshold: u32) -> (nonce: u32)
    requires
        exists|n: u32| #[trigger] solves(blocks@, threshold, n),
    ensures
        is_first_solution(blocks@, threshold, nonce),
{
    search_hashcash_soft(blocks, threshold)
}

} // verus!

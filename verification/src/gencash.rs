//! Proofs of work: from a token and its easiness to the text of a nonce.

use crate::blocks::{nonce_to_le_bytes, HashcashBlocks};
use crate::encoding::{
    base64_standard, base64_url, law_base64_injective, law_base64_length, standard_encode,
    url_safe_decode,
};
use crate::header::challenge;
use crate::message::{
    law_nonce_bytes, law_nonce_of_bytes, message, nonce_bytes, PREFIX_LEN, TOKEN_LEN,
};
use crate::search::{
    find_nonce, is_first_solution, law_first_solution_is_least, law_first_solution_unique, rank,
    search_hashcash, solves,
};
use crate::sha_model::{be_word, sha256};
use vstd::arithmetic::power2::{lemma2_to64, pow2};
use vstd::prelude::*;

verus! {

/// The greatest leading word that an easiness accepts: `(2 * low + 1) * 8 *
/// 128^high`, where `low` is its low six bits and `high` its high two.
pub open spec fn threshold(easiness: u8) -> u32 {
    let unit: int = if easiness < 64 {
        0x8
    } else if easiness < 128 {
        0x400
    } else if easiness < 192 {
        0x2_0000
    } else {
        0x100_0000
    };
    ((2 * (easiness % 64) + 1) * unit) as u32
}

/// The 48-byte token that a text is the URL-safe Base64 of, if there is one.
pub open spec fn token_of(text: Seq<char>) -> Option<Seq<u8>> {
    if exists|token: Seq<u8>| token.len() == TOKEN_LEN && text == #[trigger] base64_url(token) {
        Some(choose|token: Seq<u8>| token.len() == TOKEN_LEN && text == #[trigger] base64_url(token))
    } else {
        None
    }
}

/// Whether a text proves the work that a token and an easiness call for: it is
/// the Base64 of a nonce, and the digest of the message for it starts low enough.
pub open spec fn is_valid_proof(token: Seq<u8>, easiness: u8, proof_text: Seq<char>) -> bool {
    exists|nonce: Seq<u8>|
        {
            &&& nonce.len() == PREFIX_LEN
            &&& proof_text == #[trigger] base64_standard(nonce)
            &&& be_word(sha256(message(nonce, token)), 0) <= threshold(easiness)
        }
}

/// Whether a text is the one that the search ends with: the Base64 of the first
/// nonce that solves the puzzle.
pub open spec fn is_first_proof(token: Seq<u8>, easiness: u8, proof_text: Seq<char>) -> bool {
    exists|nonce: u32|
        #[trigger] is_first_solution(token, threshold(easiness), nonce) && proof_text
            == base64_standard(nonce_bytes(nonce))
}

/// Why there is no proof for a token.
#[derive(Debug, Clone, Copy, PartialEq, Eq)]
pub enum GencashError {
    /// The token is not URL-safe Base64 without padding.
    InvalidBase64,
    /// The token is Base64, but not of 48 bytes.
    WrongLength,
    /// No nonce solves the puzzle.
    NoSolution,
}

/// The text of a 48-byte token stands for that token and no other.
pub proof fn law_token_of_text(token: Seq<u8>)
    requires
        token.len() == TOKEN_LEN,
    ensures
        token_of(base64_url(token)) == Some(token),
{
    let text = base64_url(token);
    let chosen = choose|t: Seq<u8>| t.len() == TOKEN_LEN && text == #[trigger] base64_url(t);
    law_base64_injective(chosen, token, '-', '_');
}

/// The token in a header has the right length for a proof: where it is Base64
/// at all, it is that of 48 bytes.
pub proof fn law_header_token(text: Seq<char>, token: Seq<char>, easiness: u8, bytes: Seq<u8>)
    requires
        challenge(text) == Some((token, easiness)),
        token == base64_url(bytes),
    ensures
        token_of(token) == Some(bytes),
{
    law_base64_length(bytes);
    law_token_of_text(bytes);
}

/// Greater easiness accepts more.
pub proof fn law_threshold_increases(x: u8, y: u8)
    requires
        x < y,
    ensures
        threshold(x) < threshold(y),
{
}

/// The threshold has the low six bits of the easiness and a one behind them,
/// moved up by three bits and by seven more for each step of the high two.
pub proof fn law_threshold_formula(easiness: u8)
    ensures
        threshold(easiness) == (2 * (easiness & 63) + 1) * pow2(
            (7 * (easiness >> 6) + 3) as nat,
        ),
{
    lemma2_to64();
    assert(easiness & 63 == easiness % 64 && easiness >> 6 == easiness / 64) by (bit_vector);
}

/// Each step of the easiness within a group of 64 raises the threshold by the
/// same amount, twice what the group starts with.
pub proof fn law_threshold_steps(high: u8, low: u8)
    requires
        high < 4,
        low < 63,
    ensures
        threshold((64 * high) as u8) == pow2((7 * high + 3) as nat),
        threshold((64 * high + low + 1) as u8) - threshold((64 * high + low) as u8) == 2 * pow2(
            (7 * high + 3) as nat,
        ),
{
    lemma2_to64();
}

/// A text stands for a token exactly where it is the text of that token, which
/// is 48 bytes long.
pub proof fn law_token_of(text: Seq<char>, token: Seq<u8>)
    ensures
        token_of(text) == Some(token) <==> token.len() == 48 && text == base64_url(token),
{
    if token.len() == 48 && text == base64_url(token) {
        law_token_of_text(token);
    }
}

/// The text of four bytes is a valid proof exactly where the first four bytes of
/// the digest of the message for them make up a number within the threshold.
pub proof fn law_valid_proof(token: Seq<u8>, easiness: u8, nonce: Seq<u8>)
    requires
        nonce.len() == 4,
    ensures
        ({
            let d = sha256(message(nonce, token));
            is_valid_proof(token, easiness, base64_standard(nonce)) <==> ((d[0] * 256 + d[1]) * 256
                + d[2]) * 256 + d[3] <= threshold(easiness)
        }),
{
    if is_valid_proof(token, easiness, base64_standard(nonce)) {
        let chosen = choose|n: Seq<u8>|
            {
                &&& n.len() == PREFIX_LEN
                &&& base64_standard(nonce) == #[trigger] base64_standard(n)
                &&& be_word(sha256(message(n, token)), 0) <= threshold(easiness)
            };
        law_base64_injective(chosen, nonce, '+', '/');
    }
    assert(base64_standard(nonce) == base64_standard(nonce));
}

/// Nothing but the text of four bytes is a valid proof.
pub proof fn law_valid_proof_is_nonce_text(token: Seq<u8>, easiness: u8, proof_text: Seq<char>)
    requires
        is_valid_proof(token, easiness, proof_text),
    ensures
        exists|nonce: Seq<u8>| nonce.len() == 4 && proof_text == #[trigger] base64_standard(nonce),
{
}

/// The text of a nonce is what the search ends with exactly where the nonce is
/// the first solution.
pub proof fn law_first_proof_of_nonce(token: Seq<u8>, easiness: u8, nonce: u32)
    ensures
        is_first_proof(token, easiness, base64_standard(nonce_bytes(nonce)))
            <==> is_first_solution(token, threshold(easiness), nonce),
{
    let text = base64_standard(nonce_bytes(nonce));
    if is_first_proof(token, easiness, text) {
        let n = choose|n: u32|
            #[trigger] is_first_solution(token, threshold(easiness), n) && text == base64_standard(
                nonce_bytes(n),
            );
        law_base64_injective(nonce_bytes(n), nonce_bytes(nonce), '+', '/');
        law_nonce_bytes(n);
        law_nonce_bytes(nonce);
    }
}

/// The search ends with the text of a nonce that solves the puzzle, and no
/// solution comes before that nonce.
pub proof fn law_first_proof_is_least(
    token: Seq<u8>,
    easiness: u8,
    proof_text: Seq<char>,
    other: u32,
)
    requires
        is_first_proof(token, easiness, proof_text),
        solves(token, threshold(easiness), other),
    ensures
        exists|nonce: u32|
            {
                &&& #[trigger] solves(token, threshold(easiness), nonce)
                &&& proof_text == base64_standard(nonce_bytes(nonce))
                &&& rank(nonce) <= rank(other)
            },
{
    let nonce = choose|nonce: u32|
        #[trigger] is_first_solution(token, threshold(easiness), nonce) && proof_text
            == base64_standard(nonce_bytes(nonce));
    law_first_solution_is_least(token, threshold(easiness), nonce, other);
}

/// A search can end with one text only.
pub proof fn law_first_proof_unique(token: Seq<u8>, easiness: u8, x: Seq<char>, y: Seq<char>)
    requires
        is_first_proof(token, easiness, x),
        is_first_proof(token, easiness, y),
    ensures
        x == y,
{
    let m = choose|m: u32|
        #[trigger] is_first_solution(token, threshold(easiness), m) && x == base64_standard(
            nonce_bytes(m),
        );
    let n = choose|n: u32|
        #[trigger] is_first_solution(token, threshold(easiness), n) && y == base64_standard(
            nonce_bytes(n),
        );
    law_first_solution_unique(token, threshold(easiness), m, n);
}

/// The text that a search ends with is a valid proof.
pub proof fn law_first_proof_is_valid(token: Seq<u8>, easiness: u8, proof_text: Seq<char>)
    requires
        is_first_proof(token, easiness, proof_text),
    ensures
        is_valid_proof(token, easiness, proof_text),
{
    let nonce = choose|nonce: u32|
        #[trigger] is_first_solution(token, threshold(easiness), nonce) && proof_text
            == base64_standard(nonce_bytes(nonce));
    assert(solves(token, threshold(easiness), nonce));
    assert(proof_text == base64_standard(nonce_bytes(nonce)));
}

/// The search misses no proof: where no nonce solves the puzzle, no text at all
/// is a valid proof.
pub proof fn law_search_misses_nothing(token: Seq<u8>, easiness: u8, proof_text: Seq<char>)
    requires
        forall|nonce: u32| !#[trigger] solves(token, threshold(easiness), nonce),
    ensures
        !is_valid_proof(token, easiness, proof_text),
{
    assert forall|bytes: Seq<u8>| bytes.len() == PREFIX_LEN implies be_word(
        sha256(#[trigger] message(bytes, token)),
        0,
    ) > threshold(easiness) by {
        let nonce = (bytes[0] + 256 * bytes[1] + 65536 * bytes[2] + 16777216 * bytes[3]) as u32;
        law_nonce_of_bytes(nonce, bytes);
        assert(!solves(token, threshold(easiness), nonce));
    }
}

/// A proof stays valid where the easiness is greater.
pub proof fn law_valid_proof_stays_valid(
    token: Seq<u8>,
    easiness: u8,
    easier: u8,
    proof_text: Seq<char>,
)
    requires
        easiness <= easier,
        is_valid_proof(token, easiness, proof_text),
    ensures
        is_valid_proof(token, easier, proof_text),
{
    if easiness < easier {
        law_threshold_increases(easiness, easier);
    }
}

/// Greater easiness never makes the search longer.
pub proof fn law_easier_search_is_no_longer(
    token: Seq<u8>,
    easiness: u8,
    easier: u8,
    m: u32,
    n: u32,
)
    requires
        easiness <= easier,
        is_first_solution(token, threshold(easiness), m),
        is_first_solution(token, threshold(easier), n),
    ensures
        rank(n) <= rank(m),
{
    if easiness < easier {
        law_threshold_increases(easiness, easier);
    }
    assert(solves(token, threshold(easiness), m));
    assert(solves(token, threshold(easier), m));
}

/// Computes the threshold for an easiness.
pub fn threshold_for(easiness: u8) -> (t: u32)
    ensures
        t == threshold(easiness),
{
    let low: u32 = ((easiness & 0b00_111111) as u32) << 1 | 1;
    let shift: u32 = ((easiness >> 6) as u32) * 7 + 3;
    assert((((easiness & 0b00_111111) as u32) << 1 | 1) << ((((easiness >> 6) as u32) * 7
        + 3) as u32) == (2 * (easiness % 64) + 1) * (if easiness < 64 {
        0x8u32
    } else if easiness < 128 {
        0x400u32
    } else if easiness < 192 {
        0x2_0000u32
    } else {
        0x100_0000u32
    })) by (bit_vector);
    assert(easiness >> 6 <= 3) by (bit_vector);
    low << shift
}

/// Copies the bytes of a token.
fn token_array(bytes: &Vec<u8>) -> (token: [u8; 48])
    requires
        bytes@.len() == TOKEN_LEN,
    ensures
        token@ == bytes@,
{
    let mut token: [u8; 48] = [0u8; 48];
    for i in 0..48usize
        invariant
            bytes@.len() == TOKEN_LEN,
            forall|k: int| 0 <= k < i ==> token[k] == bytes[k],
    {
        token[i] = bytes[i];
    }
    assert(token@ =~= bytes@);
    token
}

/// Generates the proof of work for a token in URL-safe Base64.
///
/// The token must decode to 48 bytes, and some nonce must solve its puzzle;
/// [`try_gencash`] takes any text.
pub fn gencash(token_b64: &str, easiness: u8) -> (proof_b64: String)
    requires
        token_of(token_b64@) is Some,
        exists|nonce: u32| #[trigger]
            solves(token_of(token_b64@)->0, threshold(easiness), nonce),
    ensures
        is_first_proof(token_of(token_b64@)->0, easiness, proof_b64@),
        is_valid_proof(token_of(token_b64@)->0, easiness, proof_b64@),
{
    let ghost token = token_of(token_b64@)->0;
    assert(token_b64@ == base64_url(token) && token.len() == TOKEN_LEN);
    let token_bytes: Vec<u8> = url_safe_decode(token_b64).expect("token must be valid Base64");
    proof {
        law_base64_injective(token_bytes@, token, '-', '_');
    }
    let blocks: HashcashBlocks = HashcashBlocks::new(&token_array(&token_bytes));
    let nonce: u32 = search_hashcash(&blocks, threshold_for(easiness));
    let proof_b64: String = standard_encode(&nonce_to_le_bytes(nonce));
    proof {
        law_first_proof_is_valid(token, easiness, proof_b64@);
    }
    proof_b64
}

/// Generates the proof of work for a token in URL-safe Base64, or says why
/// there is none.
pub fn try_gencash(token_b64: &str, easiness: u8) -> (proof_b64: Result<String, GencashError>)
    ensures
        match proof_b64 {
            Ok(text) => {
                &&& token_of(token_b64@) is Some
                &&& is_first_proof(token_of(token_b64@)->0, easiness, text@)
                &&& is_valid_proof(token_of(token_b64@)->0, easiness, text@)
            },
            Err(GencashError::InvalidBase64) => {
                &&& token_of(token_b64@) is None
                &&& forall|bytes: Seq<u8>| token_b64@ != #[trigger] base64_url(bytes)
            },
            Err(GencashError::WrongLength) => {
                &&& token_of(token_b64@) is None
                &&& exists|bytes: Seq<u8>| token_b64@ == #[trigger] base64_url(bytes)
            },
            Err(GencashError::NoSolution) => {
                &&& token_of(token_b64@) is Some
                &&& forall|nonce: u32|
                    !#[trigger] solves(token_of(token_b64@)->0, threshold(easiness), nonce)
            },
        },
{
    match url_safe_decode(token_b64) {
        Ok(token_bytes) => {
            if token_bytes.len() != TOKEN_LEN {
                proof {
                    if token_of(token_b64@) is Some {
                        law_base64_injective(token_of(token_b64@)->0, token_bytes@, '-', '_');
                    }
                }
                return Err(GencashError::WrongLength);
            }
            proof {
                law_token_of_text(token_bytes@);
            }
            let blocks: HashcashBlocks = HashcashBlocks::new(&token_array(&token_bytes));
            match find_nonce(&blocks, threshold_for(easiness)) {
                Some(nonce) => {
                    let text: String = standard_encode(&nonce_to_le_bytes(nonce));
                    proof {
                        law_first_proof_is_valid(token_bytes@, easiness, text@);
                    }
                    Ok(text)
                },
                None => Err(GencashError::NoSolution),
            }
        },
        Err(_) => Err(GencashError::InvalidBase64),
    }
}

} // verus!

use base64::engine::general_purpose::{STANDARD_NO_PAD, URL_SAFE_NO_PAD};
use base64::Engine;
use hashcash::blocks::HashcashBlocks;
use hashcash::gencash::gencash;
use hashcash::message::{MESSAGE_LEN, PREFIX_LEN, TOKEN_LEN};
use hashcash::search::search_hashcash_soft;
use sha2::{Digest, Sha256};

#[test]
fn known_vectors() {
    let cases = [
        (
            "wFqIT_wY3tYKcrm5zqwaUoWym3ZCz32cCsrJOgYBgihtpaWUhGyWJ--EY-zfwI-i",
            180u8,
            "owAAAA",
        ),
        (
            "3NIjq_fgu6bTyepwHuKiaB8a1YRjISBhktWK1fjhRx86RhOqKZNAcOZht0wJvmhQ",
            180u8,
            "AQAAAA",
        ),
    ];

    for (token, easiness, expected) in cases {
        assert_eq!(gencash(token, easiness), expected);
    }
}

#[test]
fn soft_solver_known_vector() {
    let token_bytes = URL_SAFE_NO_PAD
        .decode("3NIjq_fgu6bTyepwHuKiaB8a1YRjISBhktWK1fjhRx86RhOqKZNAcOZht0wJvmhQ")
        .unwrap();
    let mut token = [0u8; TOKEN_LEN];
    token.copy_from_slice(&token_bytes);

    let threshold = 105u32 << 17;
    let blocks = HashcashBlocks::new(&token);

    assert_eq!(search_hashcash_soft(&blocks, threshold), 1);
}

#[test]
fn generated_proofs_validate_against_reference_sha256() {
    let cases = [
        ([0x00; TOKEN_LEN], 255),
        ([0xff; TOKEN_LEN], 255),
        ([0x5a; TOKEN_LEN], 248),
        ([0xa5; TOKEN_LEN], 248),
        (core::array::from_fn(|i| i as u8), 240),
        (core::array::from_fn(|i| (TOKEN_LEN - i) as u8), 240),
    ];

    for (token, easiness) in cases {
        let token_b64 = URL_SAFE_NO_PAD.encode(token);
        let proof = gencash(&token_b64, easiness);

        assert!(
            reference_validate(&token, easiness, &proof),
            "proof did not validate for token {token_b64} and easiness {easiness}: {proof}"
        );
    }
}

fn reference_validate(token: &[u8; TOKEN_LEN], easiness: u8, proof_b64: &str) -> bool {
    let proof = STANDARD_NO_PAD.decode(proof_b64).unwrap();
    assert_eq!(proof.len(), PREFIX_LEN);

    let mut buffer = vec![0u8; MESSAGE_LEN];
    buffer[..PREFIX_LEN].copy_from_slice(&proof);
    for chunk in buffer[PREFIX_LEN..].chunks_exact_mut(TOKEN_LEN) {
        chunk.copy_from_slice(token);
    }

    let digest = Sha256::digest(&buffer);
    let first_u32 = u32::from_be_bytes(digest[..4].try_into().unwrap());

    let low = ((easiness & 0b00_111111) as u32) << 1 | 1;
    let shift = ((easiness >> 6) as u32) * 7 + 3;
    first_u32 <= (low << shift)
}

#[test]
#[should_panic(expected = "valid Base64")]
fn invalid_base64_panics() {
    let _ = gencash("not_base64!", 180);
}

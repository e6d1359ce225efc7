use base64::engine::general_purpose::{STANDARD_NO_PAD, URL_SAFE_NO_PAD};
use base64::Engine;
use hashcash::blocks::HashcashBlocks;
use hashcash::gencash::{gencash, threshold_for, try_gencash, GencashError};
use hashcash::search::{digest_word, search_hashcash};

fn nonce_of(proof: &str) -> u32 {
    let bytes = STANDARD_NO_PAD.decode(proof).unwrap();
    u32::from_le_bytes(bytes.try_into().unwrap())
}

#[test]
fn thresholds_have_exact_values() {
    assert_eq!(threshold_for(0), 8);
    assert_eq!(threshold_for(63), 1016);
    assert_eq!(threshold_for(64), 1024);
    assert_eq!(threshold_for(127), 127 << 10);
    assert_eq!(threshold_for(128), 1 << 17);
    assert_eq!(threshold_for(180), 105 << 17);
    assert_eq!(threshold_for(192), 1 << 24);
    assert_eq!(threshold_for(255), 0x7f00_0000);
}

#[test]
fn thresholds_increase() {
    for easiness in 0..255u8 {
        assert!(threshold_for(easiness) < threshold_for(easiness + 1));
    }
}

#[test]
fn proof_is_the_text_of_the_first_nonce() {
    let token: [u8; 48] = core::array::from_fn(|i| (200 - i) as u8);
    let proof = gencash(&URL_SAFE_NO_PAD.encode(token), 250);
    let blocks = HashcashBlocks::new(&token);
    assert_eq!(nonce_of(&proof), search_hashcash(&blocks, threshold_for(250)));
    assert_eq!(proof.len(), 6);
}

#[test]
fn proof_stays_valid_and_search_no_longer_when_easier() {
    let token: [u8; 48] = [0x77; 48];
    let text = URL_SAFE_NO_PAD.encode(token);
    let blocks = HashcashBlocks::new(&token);
    let hard = nonce_of(&gencash(&text, 225));
    for easier in [225u8, 230, 240, 255] {
        assert!(digest_word(&blocks, hard) <= threshold_for(easier));
        assert!(nonce_of(&gencash(&text, easier)) <= hard);
    }
}

#[test]
fn checked_search_agrees_on_tokens() {
    let text = URL_SAFE_NO_PAD.encode([0xfbu8; 48]);
    assert!(text.contains('-') || text.contains('_'));
    assert_eq!(try_gencash(&text, 255), Ok(gencash(&text, 255)));
}

#[test]
fn texts_that_are_not_base64_are_refused() {
    let bad = Err(GencashError::InvalidBase64);
    let good = URL_SAFE_NO_PAD.encode([0xffu8; 48]);
    assert_eq!(try_gencash("not_base64!", 180), bad);
    assert_eq!(try_gencash("A", 180), bad);
    assert_eq!(try_gencash("AA==", 180), bad);
    assert_eq!(try_gencash("AB", 180), bad);
    assert_eq!(try_gencash("+/+/", 180), bad);
    assert_eq!(try_gencash("\u{e9}\u{e9}", 180), bad);
    assert_eq!(try_gencash(&good[..63], 180), bad);
    assert_eq!(try_gencash(&good.replace('_', "/"), 180), bad);
}

#[test]
fn tokens_of_other_lengths_are_refused() {
    let wrong = Err(GencashError::WrongLength);
    assert_eq!(try_gencash("", 180), wrong);
    assert_eq!(try_gencash("AA", 180), wrong);
    assert_eq!(try_gencash(&URL_SAFE_NO_PAD.encode([1u8; 47]), 180), wrong);
    assert_eq!(try_gencash(&URL_SAFE_NO_PAD.encode([1u8; 49]), 180), wrong);
}

#[test]
fn different_tokens_have_different_texts() {
    let mut other = [0u8; 48];
    other[47] = 1;
    assert_ne!(URL_SAFE_NO_PAD.encode([0u8; 48]), URL_SAFE_NO_PAD.encode(other));
    assert_eq!(URL_SAFE_NO_PAD.encode([0u8; 48]).len(), 64);
    assert_eq!(URL_SAFE_NO_PAD.encode([0u8; 47]).len(), 63);
}

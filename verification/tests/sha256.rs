use hashcash::blocks::{
    compress_fixed_blocks_soft, fill_repeated, nonce_to_le_bytes, HashcashBlocks,
};
use hashcash::message::{
    FIXED_BLOCKS_AFTER_FIRST, FULL_DATA_BLOCKS, MESSAGE_BITS, MESSAGE_LEN, PATTERN_REPEATS,
    PATTERN_TAIL, PREFIX_LEN, TOKEN_LEN,
};
use hashcash::search::{digest_word, find_nonce, search_hashcash, search_hashcash_soft};
use hashcash::sha256::{
    big_sigma0, big_sigma1, ch, compress_schedule_soft, maj, schedule_block, small_sigma0,
    small_sigma1,
};
use hashcash::sha_model::{H256_256, K32};
use sha2::{Digest, Sha256};

fn reference_word(token: &[u8; TOKEN_LEN], nonce: u32) -> u32 {
    let mut buffer = vec![0u8; MESSAGE_LEN];
    buffer[..PREFIX_LEN].copy_from_slice(&nonce.to_le_bytes());
    for chunk in buffer[PREFIX_LEN..].chunks_exact_mut(TOKEN_LEN) {
        chunk.copy_from_slice(token);
    }
    let digest = Sha256::digest(&buffer);
    u32::from_be_bytes(digest[..4].try_into().unwrap())
}

#[test]
fn word_functions_have_exact_values() {
    assert_eq!(small_sigma0(0x8000_0001), 0x1300_6000);
    for x in [0u32, 1, 0x8000_0000, 0xdead_beef, u32::MAX] {
        assert_eq!(small_sigma0(x), x.rotate_right(7) ^ x.rotate_right(18) ^ (x >> 3));
        assert_eq!(small_sigma1(x), x.rotate_right(17) ^ x.rotate_right(19) ^ (x >> 10));
        assert_eq!(big_sigma0(x), x.rotate_right(2) ^ x.rotate_right(13) ^ x.rotate_right(22));
        assert_eq!(big_sigma1(x), x.rotate_right(6) ^ x.rotate_right(11) ^ x.rotate_right(25));
    }
    assert_eq!(big_sigma0(1), 0x4008_0400);
    assert_eq!(big_sigma1(1), 0x0420_0080);
    assert_eq!(small_sigma1(1), 0x0000_a000);
    assert_eq!(ch(0xffff_0000, 0x1234_5678, 0x9abc_def0), 0x1234_def0);
    assert_eq!(maj(0xff00_ff00, 0xf0f0_f0f0, 0xcccc_cccc), 0xfcc0_fcc0);
}

#[test]
fn one_block_message_has_its_published_digest() {
    let mut block = [0u8; 64];
    block[..3].copy_from_slice(b"abc");
    block[3] = 0x80;
    block[63] = 24;
    let mut state = H256_256;
    compress_schedule_soft(&mut state, &schedule_block(&block));
    assert_eq!(
        state,
        [
            0xba7816bf, 0x8f01cfea, 0x414140de, 0x5dae2223, 0xb00361a3, 0x96177a9c, 0xb410ff61,
            0xf20015ad
        ]
    );
}

#[test]
fn schedule_starts_with_block_words_and_round_constants() {
    let block: [u8; 64] = core::array::from_fn(|i| i as u8);
    let schedule = schedule_block(&block);
    for t in 0..16 {
        let word = u32::from_be_bytes(block[4 * t..4 * t + 4].try_into().unwrap());
        assert_eq!(schedule[t], word.wrapping_add(K32[t]));
    }
}

#[test]
fn message_is_cut_into_blocks() {
    assert_eq!(MESSAGE_LEN, 12_582_916);
    assert_eq!(MESSAGE_BITS, 100_663_328);
    assert_eq!(FULL_DATA_BLOCKS, 196_608);
    assert_eq!(FIXED_BLOCKS_AFTER_FIRST, 196_607);
    assert_eq!(PATTERN_REPEATS, 65_535);
    assert_eq!(PATTERN_TAIL, 2);
}

#[test]
fn repeated_fill_wraps_around_the_token() {
    let token: [u8; TOKEN_LEN] = core::array::from_fn(|i| i as u8);
    let mut dst = [0xaau8; 7];
    fill_repeated(&mut dst, &token, 44);
    assert_eq!(dst, [44, 45, 46, 47, 0, 1, 2]);
    fill_repeated(&mut dst, &token, 96);
    assert_eq!(dst, [0, 1, 2, 3, 4, 5, 6]);
    let mut empty: [u8; 0] = [];
    fill_repeated(&mut empty, &token, usize::MAX);
    let mut one = [0u8];
    fill_repeated(&mut one, &token, usize::MAX);
    assert_eq!(one[0] as usize, usize::MAX % TOKEN_LEN);
}

#[test]
fn nonce_is_little_endian() {
    assert_eq!(nonce_to_le_bytes(0), [0, 0, 0, 0]);
    assert_eq!(nonce_to_le_bytes(163), [0xa3, 0, 0, 0]);
    assert_eq!(nonce_to_le_bytes(0x1234_5678), [0x78, 0x56, 0x34, 0x12]);
    assert_eq!(nonce_to_le_bytes(u32::MAX), [0xff, 0xff, 0xff, 0xff]);
}

#[test]
fn every_prefix_is_that_of_a_nonce() {
    for prefix in [[0u8, 0, 0, 0], [1, 2, 3, 4], [0xff, 0, 0x80, 0x7f], [0xff; 4]] {
        assert_eq!(nonce_to_le_bytes(u32::from_le_bytes(prefix)), prefix);
    }
}

#[test]
fn precomputed_blocks_give_the_hash_of_the_message() {
    let token: [u8; TOKEN_LEN] = core::array::from_fn(|i| (7 * i + 3) as u8);
    let blocks = HashcashBlocks::new(&token);
    for nonce in [0u32, 1, 0x0102_0304, u32::MAX] {
        assert_eq!(digest_word(&blocks, nonce), reference_word(&token, nonce));
    }
}

#[test]
fn fixed_blocks_finish_the_hash() {
    let token: [u8; TOKEN_LEN] = core::array::from_fn(|i| (i * i) as u8);
    let blocks = HashcashBlocks::new(&token);
    let mut first = [0u8; 64];
    first[..PREFIX_LEN].copy_from_slice(&[9, 8, 7, 6]);
    fill_repeated(&mut first[PREFIX_LEN..], &token, 0);
    let mut state = H256_256;
    compress_schedule_soft(&mut state, &schedule_block(&first));
    compress_fixed_blocks_soft(&mut state, &blocks);
    assert_eq!(state[0], reference_word(&token, u32::from_le_bytes([9, 8, 7, 6])));
}

#[test]
fn search_returns_the_first_solution() {
    let token = [0x3cu8; TOKEN_LEN];
    let blocks = HashcashBlocks::new(&token);
    let threshold = 0x1800_0000;
    let nonce = find_nonce(&blocks, threshold).unwrap();
    assert!(reference_word(&token, nonce) <= threshold);
    for earlier in 1..nonce {
        assert!(reference_word(&token, earlier) > threshold);
    }
    assert_eq!(search_hashcash(&blocks, threshold), nonce);
    assert_eq!(search_hashcash_soft(&blocks, threshold), nonce);
    assert_eq!(find_nonce(&blocks, u32::MAX), Some(1));
}

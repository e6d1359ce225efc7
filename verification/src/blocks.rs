//! The part of the work that all nonces share: the schedules of the blocks that
//! depend on the token alone.

use crate::message::{
    absorb_fixed, closing_block, fixed_part, law_block_layout, message, nonce_bytes, opening_block,
    token_block, token_run, zero_nonce, FIXED_BLOCKS_AFTER_FIRST, FULL_DATA_BLOCKS, MESSAGE_BITS,
    PATTERN_REPEATS, PATTERN_TAIL, PREFIX_LEN, TOKEN_LEN,
};
use crate::sha256::{
    compress_schedule_soft, keyed_compress, keyed_schedule, lemma_keyed_compress, schedule_block,
    Schedule, State,
};
use crate::sha_model::{absorb, be_byte, block_at, padded};
use vstd::prelude::*;

verus! {

/// The blocks of a token's message: the first one without its nonce, and the
/// keyed schedules of all others.
pub struct HashcashBlocks {
    first_block: [u8; 64],
    block12: Schedule,
    block28: Schedule,
    block44: Schedule,
    padding: Schedule,
}

impl View for HashcashBlocks {
    type V = Seq<u8>;

    /// The token that the blocks were made for.
    closed spec fn view(&self) -> Seq<u8> {
        self.first_block@.subrange(4, 52)
    }
}

impl HashcashBlocks {
    #[verifier::type_invariant]
    spec fn well_formed(self) -> bool {
        &&& self.first_block@ == opening_block(zero_nonce(), self@)
        &&& self.block12@ == keyed_schedule(token_block(self@, 12))
        &&& self.block28@ == keyed_schedule(token_block(self@, 28))
        &&& self.block44@ == keyed_schedule(token_block(self@, 44))
        &&& self.padding@ == keyed_schedule(closing_block(self@))
    }

    /// Lays out the blocks for a token.
    pub fn new(token: &[u8; 48]) -> (blocks: Self)
        ensures
            blocks@ == token@,
    {
        let mut first_block: [u8; 64] = [0u8; 64];
        let (_prefix, tail) = first_block.split_at_mut(PREFIX_LEN);
        fill_repeated(tail, token, 0);
        assert(first_block@ =~= opening_block(zero_nonce(), token@));

        let mut block12: [u8; 64] = [0u8; 64];
        fill_repeated(&mut block12, token, 12);
        assert(block12@ =~= token_block(token@, 12));

        let mut block28: [u8; 64] = [0u8; 64];
        fill_repeated(&mut block28, token, 28);
        assert(block28@ =~= token_block(token@, 28));

        let mut block44: [u8; 64] = [0u8; 64];
        fill_repeated(&mut block44, token, 44);
        assert(block44@ =~= token_block(token@, 44));

        let padding: [u8; 64] = padding_block(token);

        assert(first_block@.subrange(4, 52) =~= token@);
        HashcashBlocks {
            first_block,
            block12: schedule_block(&block12),
            block28: schedule_block(&block28),
            block44: schedule_block(&block44),
            padding: schedule_block(&padding),
        }
    }

    /// The token of the blocks has the length of a token.
    pub proof fn lemma_token_len(&self)
        ensures
            self@.len() == TOKEN_LEN,
    {
    }

    /// The first block with a nonce in place.
    pub(crate) fn first_block_with(&self, nonce: u32) -> (block: [u8; 64])
        ensures
            block@ == opening_block(nonce_bytes(nonce), self@),
    {
        proof {
            use_type_invariant(self);
        }
        let bytes: [u8; 4] = nonce_to_le_bytes(nonce);
        let mut block: [u8; 64] = self.first_block;
        block[0] = bytes[0];
        block[1] = bytes[1];
        block[2] = bytes[2];
        block[3] = bytes[3];
        assert(block@ =~= opening_block(nonce_bytes(nonce), self@));
        block
    }
}

/// The little-endian form of a nonce.
pub fn nonce_to_le_bytes(nonce: u32) -> (bytes: [u8; 4])
    ensures
        bytes@ == nonce_bytes(nonce),
{
    let bytes: [u8; 4] = [
        (nonce % 256) as u8,
        (nonce / 256 % 256) as u8,
        (nonce / 65536 % 256) as u8,
        (nonce / 16777216) as u8,
    ];
    assert(bytes@ =~= nonce_bytes(nonce));
    bytes
}

/// Fills `dst` with the token repeated, from the token's byte `start % 48` on.
pub fn fill_repeated(dst: &mut [u8], token: &[u8; 48], start: usize)
    requires
        start + old(dst)@.len() <= usize::MAX + 1,
    ensures
        final(dst)@ == Seq::new(old(dst)@.len(), |i: int| token@[(start + i) % 48]),
        final(dst)@ == token_run(token@, start as int, old(dst)@.len()),
{
    let len: usize = dst.len();
    let mut offset: usize = 0;
    while offset < len
        invariant
            dst@.len() == len,
            offset <= len,
            start + len <= usize::MAX + 1,
            forall|i: int| 0 <= i < offset ==> dst@[i] == token@[(start + i) % 48],
        decreases len - offset,
    {
        dst[offset] = token[(start + offset) % TOKEN_LEN];
        offset = offset + 1;
    }
}

/// The last block of a token's message.
fn padding_block(token: &[u8; 48]) -> (block: [u8; 64])
    ensures
        block@ == closing_block(token@),
{
    let mut block: [u8; 64] = [0u8; 64];
    block[0] = token[44];
    block[1] = token[45];
    block[2] = token[46];
    block[3] = token[47];
    block[4] = 0x80;
    let mut rest: u64 = MESSAGE_BITS;
    let mut n: usize = 8;
    while n > 0
        invariant
            n <= 8,
            forall|i: int| 0 <= i < n ==> be_byte(rest as nat, n as nat, i) == be_byte(
                MESSAGE_BITS as nat,
                8,
                i,
            ),
            forall|i: int| 0 <= i < 4 ==> block[i] == token[44 + i],
            block[4] == 0x80,
            forall|i: int| 5 <= i < 56 ==> block[i] == 0,
            forall|i: int|
                n <= i < 8 ==> #[trigger] block[56 + i] == be_byte(MESSAGE_BITS as nat, 8, i),
        decreases n,
    {
        assert(be_byte(rest as nat, n as nat, n - 1) == (rest % 256) as u8);
        block[55 + n] = (rest % 256) as u8;
        rest = rest / 256;
        n = n - 1;
    }
    assert forall|i: int| 56 <= i < 64 implies block[i] == closing_block(token@)[i] by {
        assert(block[56 + (i - 56)] == be_byte(MESSAGE_BITS as nat, 8, i - 56));
    }
    assert(block@ =~= closing_block(token@));
    block
}

/// Compresses everything that follows the first block into a hash value.
pub fn compress_fixed_blocks_soft(state: &mut State, blocks: &HashcashBlocks)
    ensures
        final(state)@ == absorb_fixed(old(state)@, blocks@),
{
    proof {
        use_type_invariant(blocks);
    }
    let ghost hash = state@;
    let ghost data = fixed_part(blocks@);
    let mut i: usize = 0;
    while i < PATTERN_REPEATS
        invariant
            i <= PATTERN_REPEATS,
            blocks@.len() == 48,
            data == fixed_part(blocks@),
            blocks.block12@ == keyed_schedule(token_block(blocks@, 12)),
            blocks.block28@ == keyed_schedule(token_block(blocks@, 28)),
            blocks.block44@ == keyed_schedule(token_block(blocks@, 44)),
            state@ == absorb(hash, data, (3 * i) as nat),
        decreases PATTERN_REPEATS - i,
    {
        proof {
            lemma_absorb_fixed_block(hash, blocks@, (3 * i) as nat);
            lemma_absorb_fixed_block(hash, blocks@, (3 * i + 1) as nat);
            lemma_absorb_fixed_block(hash, blocks@, (3 * i + 2) as nat);
        }
        compress_schedule_soft(state, &blocks.block12);
        compress_schedule_soft(state, &blocks.block28);
        compress_schedule_soft(state, &blocks.block44);
        i = i + 1;
    }
    proof {
        lemma_absorb_fixed_block(hash, blocks@, (3 * PATTERN_REPEATS) as nat);
        lemma_absorb_fixed_block(hash, blocks@, (3 * PATTERN_REPEATS + 1) as nat);
        lemma_absorb_fixed_block(hash, blocks@, (3 * PATTERN_REPEATS + 2) as nat);
    }
    if PATTERN_TAIL >= 1 {
        compress_schedule_soft(state, &blocks.block12);
    }
    if PATTERN_TAIL >= 2 {
        compress_schedule_soft(state, &blocks.block28);
    }
    compress_schedule_soft(state, &blocks.padding);
}

/// Block `k` of what follows the first block, as its position tells.
spec fn fixed_block(token: Seq<u8>, k: int) -> Seq<u8> {
    if k == FIXED_BLOCKS_AFTER_FIRST {
        closing_block(token)
    } else if k % 3 == 0 {
        token_block(token, 12)
    } else if k % 3 == 1 {
        token_block(token, 28)
    } else {
        token_block(token, 44)
    }
}

/// Compressing the schedule of the next fixed block takes the hash value one
/// block on.
proof fn lemma_absorb_fixed_block(hash: Seq<u32>, token: Seq<u8>, k: nat)
    requires
        token.len() == TOKEN_LEN,
        k < FULL_DATA_BLOCKS,
    ensures
        keyed_compress(
            absorb(hash, fixed_part(token), k),
            keyed_schedule(fixed_block(token, k as int)),
        ) == absorb(hash, fixed_part(token), k + 1),
{
    law_block_layout(zero_nonce(), token, k as int + 1);
    let data = padded(message(zero_nonce(), token));
    assert(block_at(fixed_part(token), k as int) =~= block_at(data, k as int + 1));
    lemma_keyed_compress(absorb(hash, fixed_part(token), k), fixed_block(token, k as int));
}

} // verus!

//! SHA-256 on fixed-size blocks, with the round constants added to the message
//! schedule in advance.

use crate::sha_model::{
    add_registers, be_word, choice, compress, load, lower_sigma0, lower_sigma1, majority, round,
    rounds, schedule_word, upper_sigma0, upper_sigma1, word, Registers, K32,
};
use vstd::prelude::*;

verus! {

/// A hash value.
pub type State = [u32; 8];

/// A message schedule with the round constants added.
pub type Schedule = [u32; 64];

/// The schedule of a block with the round constants added.
pub open spec fn keyed_schedule(block: Seq<u8>) -> Seq<u32> {
    Seq::new(64, |t: int| word(K32[t] + schedule_word(block, t as nat)))
}

/// The working variables after the first `n` rounds on a keyed schedule.
pub open spec fn keyed_rounds(hash: Seq<u32>, schedule: Seq<u32>, n: nat) -> Registers
    decreases n,
{
    if n == 0 {
        load(hash)
    } else {
        round(keyed_rounds(hash, schedule, (n - 1) as nat), schedule[n - 1] as int)
    }
}

/// The hash value after the block that a keyed schedule stands for.
#[verifier::opaque]
pub open spec fn keyed_compress(hash: Seq<u32>, schedule: Seq<u32>) -> Seq<u32> {
    add_registers(hash, keyed_rounds(hash, schedule, 64))
}

/// Reducing a summand does not change a reduced sum.
proof fn lemma_word_sum(x: int, y: int)
    ensures
        word(word(x) + y) == word(x + y),
        word(y + word(x)) == word(x + y),
{
    vstd::arithmetic::div_mod::lemma_add_mod_noop(x, y, 0x1_0000_0000);
    vstd::arithmetic::div_mod::lemma_add_mod_noop(x % 0x1_0000_0000, y, 0x1_0000_0000);
    vstd::arithmetic::div_mod::lemma_mod_twice(x, 0x1_0000_0000);
}

/// Wrapping addition is addition modulo `2^32`.
proof fn lemma_wrapping_add(x: u32, y: u32)
    ensures
        x.wrapping_add(y) == word(x + y),
{
}

/// Four words added up one after the other.
proof fn lemma_wrapping_sum(x: u32, y: u32, z: u32, v: u32)
    ensures
        x.wrapping_add(y).wrapping_add(z).wrapping_add(v) == word(x + y + z + v),
{
    lemma_wrapping_add(x, y);
    lemma_wrapping_add(x.wrapping_add(y), z);
    lemma_wrapping_add(x.wrapping_add(y).wrapping_add(z), v);
    lemma_word_sum(x + y, z as int);
    lemma_word_sum(x + y + z, v as int);
}

/// Reducing the sum of a round constant and a schedule word in advance does not
/// change a round.
proof fn lemma_round_word(r: Registers, kw: int)
    ensures
        round(r, word(kw) as int) == round(r, kw),
{
    let s = r.h + upper_sigma1(r.e) + choice(r.e, r.f, r.g);
    let t2 = upper_sigma0(r.a) + majority(r.a, r.b, r.c);
    lemma_word_sum(kw, s + t2);
    lemma_word_sum(kw, r.d + s);
}

/// A round computed with wrapping additions.
proof fn lemma_wrapping_round(r: Registers, wk: u32, t1: u32, t2: u32)
    requires
        t1 == r.h.wrapping_add(upper_sigma1(r.e)).wrapping_add(
            choice(r.e, r.f, r.g),
        ).wrapping_add(wk),
        t2 == upper_sigma0(r.a).wrapping_add(majority(r.a, r.b, r.c)),
    ensures
        round(r, wk as int) == (Registers {
            a: t1.wrapping_add(t2),
            b: r.a,
            c: r.b,
            d: r.c,
            e: r.d.wrapping_add(t1),
            f: r.e,
            g: r.f,
            h: r.g,
        }),
{
    let s1 = upper_sigma1(r.e);
    let c = choice(r.e, r.f, r.g);
    let s0 = upper_sigma0(r.a);
    let m = majority(r.a, r.b, r.c);
    lemma_wrapping_sum(r.h, s1, c, wk);
    lemma_wrapping_add(s0, m);
    lemma_wrapping_add(t1, t2);
    lemma_wrapping_add(r.d, t1);
    let sum1 = r.h + s1 + c + wk;
    let sum2 = s0 + m;
    lemma_word_sum(sum1, t2 as int);
    lemma_word_sum(sum2, sum1);
    lemma_word_sum(sum1, r.d as int);
}

/// Adding the round constants to the schedule in advance does not change the
/// rounds.
proof fn lemma_keyed_rounds(hash: Seq<u32>, block: Seq<u8>, n: nat)
    requires
        n <= 64,
    ensures
        keyed_rounds(hash, keyed_schedule(block), n) == rounds(hash, block, n),
    decreases n,
{
    if n > 0 {
        let m = (n - 1) as nat;
        lemma_keyed_rounds(hash, block, m);
        lemma_round_word(rounds(hash, block, m), K32[m as int] + schedule_word(block, m));
    }
}

/// Compressing the keyed schedule of a block is compressing the block.
pub proof fn lemma_keyed_compress(hash: Seq<u32>, block: Seq<u8>)
    ensures
        keyed_compress(hash, keyed_schedule(block)) == compress(hash, block),
{
    reveal(compress);
    reveal(keyed_compress);
    lemma_keyed_rounds(hash, block, 64);
}

fn rotate_right(x: u32, n: u32) -> (r: u32)
    requires
        0 < n < 32,
    ensures
        r == crate::sha_model::rotr(x, n),
{
    (x >> n) | (x << (32 - n))
}

pub fn small_sigma0(x: u32) -> (r: u32)
    ensures
        r == lower_sigma0(x),
{
    rotate_right(x, 7) ^ rotate_right(x, 18) ^ (x >> 3)
}

pub fn small_sigma1(x: u32) -> (r: u32)
    ensures
        r == lower_sigma1(x),
{
    rotate_right(x, 17) ^ rotate_right(x, 19) ^ (x >> 10)
}

pub fn big_sigma0(x: u32) -> (r: u32)
    ensures
        r == upper_sigma0(x),
{
    rotate_right(x, 2) ^ rotate_right(x, 13) ^ rotate_right(x, 22)
}

pub fn big_sigma1(x: u32) -> (r: u32)
    ensures
        r == upper_sigma1(x),
{
    rotate_right(x, 6) ^ rotate_right(x, 11) ^ rotate_right(x, 25)
}

pub fn ch(x: u32, y: u32, z: u32) -> (r: u32)
    ensures
        r == choice(x, y, z),
{
    assert(z ^ (x & (y ^ z)) == (x & y) ^ (!x & z)) by (bit_vector);
    z ^ (x & (y ^ z))
}

pub fn maj(x: u32, y: u32, z: u32) -> (r: u32)
    ensures
        r == majority(x, y, z),
{
    (x & y) ^ (x & z) ^ (y & z)
}

/// Reads the big-endian word that starts at byte `at`.
fn read_be_word(block: &[u8; 64], at: usize) -> (r: u32)
    requires
        at + 3 < 64,
    ensures
        r == be_word(block@, at as int),
{
    let b0: u32 = block[at] as u32;
    let b1: u32 = block[at + 1] as u32;
    let b2: u32 = block[at + 2] as u32;
    let b3: u32 = block[at + 3] as u32;
    assert((b0 << 24) | (b1 << 16) | (b2 << 8) | b3 == b0 * 0x100_0000 + b1 * 0x1_0000 + b2 * 0x100
        + b3) by (bit_vector)
        requires
            b0 < 256,
            b1 < 256,
            b2 < 256,
            b3 < 256,
    ;
    (b0 << 24) | (b1 << 16) | (b2 << 8) | b3
}

/// Expands a block into its message schedule and adds the round constants.
pub fn schedule_block(block: &[u8; 64]) -> (w: Schedule)
    ensures
        w@ == keyed_schedule(block@),
{
    let mut w: [u32; 64] = [0u32; 64];
    for i in 0..16usize
        invariant
            forall|t: int| 0 <= t < i ==> w[t] == schedule_word(block@, t as nat),
    {
        w[i] = read_be_word(block, 4 * i);
    }
    for i in 16..64usize
        invariant
            forall|t: int| 0 <= t < i ==> w[t] == schedule_word(block@, t as nat),
    {
        proof {
            lemma_wrapping_sum(
                lower_sigma1(w[i - 2]),
                w[i - 7],
                lower_sigma0(w[i - 15]),
                w[i - 16],
            );
        }
        w[i] = small_sigma1(w[i - 2]).wrapping_add(w[i - 7]).wrapping_add(
            small_sigma0(w[i - 15]),
        ).wrapping_add(w[i - 16]);
    }
    for i in 0..64usize
        invariant
            forall|t: int| 0 <= t < i ==> w[t] == word(K32[t] + schedule_word(block@, t as nat)),
            forall|t: int| i <= t < 64 ==> w[t] == schedule_word(block@, t as nat),
    {
        proof {
            lemma_wrapping_add(w[i as int], K32[i as int]);
        }
        w[i] = w[i].wrapping_add(K32[i]);
    }
    w
}

/// Compresses one keyed schedule into a hash value.
pub fn compress_schedule_soft(state: &mut State, schedule: &Schedule)
    ensures
        final(state)@ == keyed_compress(old(state)@, schedule@),
{
    let mut a: u32 = state[0];
    let mut b: u32 = state[1];
    let mut c: u32 = state[2];
    let mut d: u32 = state[3];
    let mut e: u32 = state[4];
    let mut f: u32 = state[5];
    let mut g: u32 = state[6];
    let mut h: u32 = state[7];
    for i in 0..64usize
        invariant
            (Registers { a, b, c, d, e, f, g, h }) == keyed_rounds(state@, schedule@, i as nat),
    {
        let t1: u32 = h.wrapping_add(big_sigma1(e)).wrapping_add(ch(e, f, g)).wrapping_add(
            schedule[i],
        );
        let t2: u32 = big_sigma0(a).wrapping_add(maj(a, b, c));
        proof {
            lemma_wrapping_round(Registers { a, b, c, d, e, f, g, h }, schedule[i as int], t1, t2);
        }
        h = g;
        g = f;
        f = e;
        e = d.wrapping_add(t1);
        d = c;
        c = b;
        b = a;
        a = t1.wrapping_add(t2);
    }
    proof {
        reveal(keyed_compress);
        lemma_wrapping_add(state[0], a);
        lemma_wrapping_add(state[1], b);
        lemma_wrapping_add(state[2], c);
        lemma_wrapping_add(state[3], d);
        lemma_wrapping_add(state[4], e);
        lemma_wrapping_add(state[5], f);
        lemma_wrapping_add(state[6], g);
        lemma_wrapping_add(state[7], h);
    }
    state[0] = state[0].wrapping_add(a);
    state[1] = state[1].wrapping_add(b);
    state[2] = state[2].wrapping_add(c);
    state[3] = state[3].wrapping_add(d);
    state[4] = state[4].wrapping_add(e);
    state[5] = state[5].wrapping_add(f);
    state[6] = state[6].wrapping_add(g);
    state[7] = state[7].wrapping_add(h);
}

} // verus!

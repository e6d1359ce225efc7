//! What the SHA-256 model says, stated bit by bit, byte by byte and modulo
//! `2^32`: the facts that single it out among hash functions of its shape.

use crate::sha256::{keyed_compress, keyed_rounds, keyed_schedule};
use crate::sha_model::{
    absorb, add_registers, be_byte, be_bytes, be_word, block_at, choice, compress, lower_sigma0,
    lower_sigma1, majority, padded, rotr, round, rounds, schedule_word, sha256, sha256_words,
    upper_sigma0, upper_sigma1, word, Registers, H256_256, K32,
};
use vstd::prelude::*;

verus! {

/// Reducing an integer to a word changes it by a multiple of `2^32`.
pub proof fn law_word(x: int)
    ensures
        (x - word(x)) % 0x1_0000_0000 == 0,
        0 <= x < 0x1_0000_0000 ==> word(x) == x,
{
}

/// Rotating by `n` brings bit `i + n` to bit `i`, around the end of the word.
pub proof fn law_rotr_bits(x: u32, n: u32, i: u32)
    requires
        0 < n < 32,
        i < 32,
    ensures
        (rotr(x, n) >> i) & 1 == (x >> (((i + n) % 32) as u32)) & 1,
{
    assert((((x >> n) | (x << ((32 - n) as u32))) >> i) & 1 == (x >> (((i + n) % 32) as u32)) & 1)
        by (bit_vector)
        requires
            0 < n < 32,
            i < 32,
    ;
}

/// Bit `i` of `lower_sigma0` is the parity of bits `i + 7` and `i + 18`, around
/// the end of the word, and `i + 3`, up to its end.
pub proof fn law_lower_sigma0_bits(x: u32, i: u32)
    requires
        i < 32,
    ensures
        (lower_sigma0(x) >> i) & 1 == (((x >> (((i + 7) % 32) as u32)) & 1) + ((x >> (((i + 18)
            % 32) as u32)) & 1) + (if i < 29 {
            (x >> ((i + 3) as u32)) & 1
        } else {
            0
        })) % 2,
{
    assert((lower_sigma0(x) >> i) & 1 == (((x >> (((i + 7) % 32) as u32)) & 1) + ((x >> (((i + 18)
        % 32) as u32)) & 1) + (if i < 29 {
        (x >> ((i + 3) as u32)) & 1
    } else {
        0
    })) % 2) by (bit_vector)
        requires
            i < 32,
    ;
}

/// Bit `i` of `lower_sigma1` is the parity of bits `i + 17` and `i + 19`, around
/// the end of the word, and `i + 10`, up to its end.
pub proof fn law_lower_sigma1_bits(x: u32, i: u32)
    requires
        i < 32,
    ensures
        (lower_sigma1(x) >> i) & 1 == (((x >> (((i + 17) % 32) as u32)) & 1) + ((x >> (((i + 19)
            % 32) as u32)) & 1) + (if i < 22 {
            (x >> ((i + 10) as u32)) & 1
        } else {
            0
        })) % 2,
{
    assert((lower_sigma1(x) >> i) & 1 == (((x >> (((i + 17) % 32) as u32)) & 1) + ((x >> (((i + 19)
        % 32) as u32)) & 1) + (if i < 22 {
        (x >> ((i + 10) as u32)) & 1
    } else {
        0
    })) % 2) by (bit_vector)
        requires
            i < 32,
    ;
}

/// Bit `i` of `upper_sigma0` is the parity of bits `i + 2`, `i + 13` and
/// `i + 22`, around the end of the word.
pub proof fn law_upper_sigma0_bits(x: u32, i: u32)
    requires
        i < 32,
    ensures
        (upper_sigma0(x) >> i) & 1 == (((x >> (((i + 2) % 32) as u32)) & 1) + ((x >> (((i + 13)
            % 32) as u32)) & 1) + ((x >> (((i + 22) % 32) as u32)) & 1)) % 2,
{
    assert((upper_sigma0(x) >> i) & 1 == (((x >> (((i + 2) % 32) as u32)) & 1) + ((x >> (((i + 13)
        % 32) as u32)) & 1) + ((x >> (((i + 22) % 32) as u32)) & 1)) % 2) by (bit_vector)
        requires
            i < 32,
    ;
}

/// Bit `i` of `upper_sigma1` is the parity of bits `i + 6`, `i + 11` and
/// `i + 25`, around the end of the word.
pub proof fn law_upper_sigma1_bits(x: u32, i: u32)
    requires
        i < 32,
    ensures
        (upper_sigma1(x) >> i) & 1 == (((x >> (((i + 6) % 32) as u32)) & 1) + ((x >> (((i + 11)
            % 32) as u32)) & 1) + ((x >> (((i + 25) % 32) as u32)) & 1)) % 2,
{
    assert((upper_sigma1(x) >> i) & 1 == (((x >> (((i + 6) % 32) as u32)) & 1) + ((x >> (((i + 11)
        % 32) as u32)) & 1) + ((x >> (((i + 25) % 32) as u32)) & 1)) % 2) by (bit_vector)
        requires
            i < 32,
    ;
}

/// `choice` takes each bit from `y` where `x` has a one, else from `z`.
pub proof fn law_choice_bits(x: u32, y: u32, z: u32, i: u32)
    requires
        i < 32,
    ensures
        (choice(x, y, z) >> i) & 1 == if (x >> i) & 1 == 1 {
            (y >> i) & 1
        } else {
            (z >> i) & 1
        },
{
    assert((choice(x, y, z) >> i) & 1 == if (x >> i) & 1 == 1 {
        (y >> i) & 1
    } else {
        (z >> i) & 1
    }) by (bit_vector)
        requires
            i < 32,
    ;
}

/// `majority` has a one exactly where at least two of the three words have one.
pub proof fn law_majority_bits(x: u32, y: u32, z: u32, i: u32)
    requires
        i < 32,
    ensures
        (majority(x, y, z) >> i) & 1 == 1 <==> ((x >> i) & 1) + ((y >> i) & 1) + ((z >> i) & 1)
            >= 2,
{
    assert((majority(x, y, z) >> i) & 1 == 1 <==> ((x >> i) & 1) + ((y >> i) & 1) + ((z >> i) & 1)
        >= 2) by (bit_vector)
        requires
            i < 32,
    ;
}

proof fn lemma_four_digits(b0: int, b1: int, b2: int, b3: int)
    requires
        0 <= b0 < 256,
        0 <= b1 < 256,
        0 <= b2 < 256,
        0 <= b3 < 256,
    ensures
        ({
            let x = b0 * 0x100_0000 + b1 * 0x1_0000 + b2 * 0x100 + b3;
            &&& 0 <= x < 0x1_0000_0000
            &&& x / 0x100_0000 == b0
            &&& x / 0x1_0000 % 0x100 == b1
            &&& x / 0x100 % 0x100 == b2
            &&& x % 0x100 == b3
        }),
{
    let x = b0 * 0x100_0000 + b1 * 0x1_0000 + b2 * 0x100 + b3;
    assert(x / 0x100 == b0 * 0x1_0000 + b1 * 0x100 + b2);
    assert(x / 0x1_0000 == b0 * 0x100 + b1);
}

/// A big-endian word gives its four bytes back, the most significant first.
pub proof fn law_be_word_bytes(bytes: Seq<u8>, at: int)
    requires
        0 <= at,
        at + 4 <= bytes.len(),
    ensures
        be_word(bytes, at) / 0x100_0000 == bytes[at],
        be_word(bytes, at) / 0x1_0000 % 0x100 == bytes[at + 1],
        be_word(bytes, at) / 0x100 % 0x100 == bytes[at + 2],
        be_word(bytes, at) % 0x100 == bytes[at + 3],
{
    lemma_four_digits(
        bytes[at] as int,
        bytes[at + 1] as int,
        bytes[at + 2] as int,
        bytes[at + 3] as int,
    );
}

/// The first sixteen words of a schedule are the block itself, four bytes to a
/// word.
pub proof fn law_schedule_holds_block(block: Seq<u8>, t: nat)
    requires
        block.len() == 64,
        t < 16,
    ensures
        schedule_word(block, t) / 0x100_0000 == block[4 * t as int],
        schedule_word(block, t) / 0x1_0000 % 0x100 == block[4 * t as int + 1],
        schedule_word(block, t) / 0x100 % 0x100 == block[4 * t as int + 2],
        schedule_word(block, t) % 0x100 == block[4 * t as int + 3],
{
    law_be_word_bytes(block, 4 * t as int);
}

/// From the seventeenth on, each word of a schedule makes up the same linear
/// relation with four words before it, modulo `2^32`.
pub proof fn law_schedule_relation(block: Seq<u8>, t: nat)
    requires
        block.len() == 64,
        16 <= t < 64,
    ensures
        (schedule_word(block, t) - lower_sigma1(schedule_word(block, (t - 2) as nat))
            - schedule_word(block, (t - 7) as nat) - lower_sigma0(
            schedule_word(block, (t - 15) as nat),
        ) - schedule_word(block, (t - 16) as nat)) % 0x1_0000_0000 == 0,
{
    law_word(
        lower_sigma1(schedule_word(block, (t - 2) as nat)) + schedule_word(block, (t - 7) as nat)
            + lower_sigma0(schedule_word(block, (t - 15) as nat)) + schedule_word(
            block,
            (t - 16) as nat,
        ),
    );
}

/// A keyed schedule is off the schedule by the round constants, modulo `2^32`.
pub proof fn law_keyed_schedule(block: Seq<u8>, t: int)
    requires
        block.len() == 64,
        0 <= t < 64,
    ensures
        keyed_schedule(block).len() == 64,
        (keyed_schedule(block)[t] - K32[t] - schedule_word(block, t as nat)) % 0x1_0000_0000 == 0,
{
    law_word(K32[t] + schedule_word(block, t as nat));
}

proof fn lemma_differences(t1: int, t2: int, d: int)
    ensures
        (word(d + t1) - d - t1) % 0x1_0000_0000 == 0,
        (word(t1 + t2) - word(d + t1) + d - t2) % 0x1_0000_0000 == 0,
{
    let m: int = 0x1_0000_0000;
    let q1 = (d + t1) / m;
    let q2 = (t1 + t2) / m;
    assert(word(d + t1) - d - t1 == m * (0 - q1));
    assert(word(t1 + t2) - word(d + t1) + d - t2 == m * (q1 - q2));
}

proof fn lemma_round_differences(r: Registers, kw: int)
    ensures
        ({
            let s = round(r, kw);
            &&& (s.e - r.d - r.h - upper_sigma1(r.e) - choice(r.e, r.f, r.g) - kw) % 0x1_0000_0000
                == 0
            &&& (s.a - s.e + r.d - upper_sigma0(r.a) - majority(r.a, r.b, r.c)) % 0x1_0000_0000
                == 0
        }),
{
    let t1 = r.h + upper_sigma1(r.e) + choice(r.e, r.f, r.g) + kw;
    let t2 = upper_sigma0(r.a) + majority(r.a, r.b, r.c);
    lemma_differences(t1, t2, r.d as int);
}

/// The rounds on a block start from the hash value. Each moves six of the
/// variables on by one place; the two new ones make up linear relations with
/// the old ones, the round constant and the schedule word, modulo `2^32`.
pub proof fn law_rounds(hash: Seq<u32>, block: Seq<u8>, t: nat)
    requires
        hash.len() == 8,
        block.len() == 64,
        t < 64,
    ensures
        ({
            let r = rounds(hash, block, 0);
            hash =~= seq![r.a, r.b, r.c, r.d, r.e, r.f, r.g, r.h]
        }),
        ({
            let r = rounds(hash, block, t);
            let s = rounds(hash, block, t + 1);
            &&& s.b == r.a && s.c == r.b && s.d == r.c
            &&& s.f == r.e && s.g == r.f && s.h == r.g
            &&& (s.e - r.d - r.h - upper_sigma1(r.e) - choice(r.e, r.f, r.g) - K32[t as int] - schedule_word(block, t))
                % 0x1_0000_0000 == 0
            &&& (s.a - s.e + r.d - upper_sigma0(r.a) - majority(r.a, r.b, r.c)) % 0x1_0000_0000
                == 0
        }),
{
    lemma_round_differences(
        rounds(hash, block, t),
        K32[t as int] + schedule_word(block, t),
    );
}

/// The rounds on a keyed schedule start from the hash value. Each moves six of
/// the variables on by one place; the two new ones make up linear relations with
/// the old ones and the schedule word, modulo `2^32`.
pub proof fn law_keyed_rounds(hash: Seq<u32>, schedule: Seq<u32>, t: nat)
    requires
        hash.len() == 8,
        schedule.len() == 64,
        t < 64,
    ensures
        ({
            let r = keyed_rounds(hash, schedule, 0);
            hash =~= seq![r.a, r.b, r.c, r.d, r.e, r.f, r.g, r.h]
        }),
        ({
            let r = keyed_rounds(hash, schedule, t);
            let s = keyed_rounds(hash, schedule, t + 1);
            &&& s.b == r.a && s.c == r.b && s.d == r.c
            &&& s.f == r.e && s.g == r.f && s.h == r.g
            &&& (s.e - r.d - r.h - upper_sigma1(r.e) - choice(r.e, r.f, r.g) - schedule[t as int])
                % 0x1_0000_0000 == 0
            &&& (s.a - s.e + r.d - upper_sigma0(r.a) - majority(r.a, r.b, r.c)) % 0x1_0000_0000
                == 0
        }),
{
    lemma_round_differences(keyed_rounds(hash, schedule, t), schedule[t as int] as int);
}

proof fn lemma_sums(hash: Seq<u32>, r: Registers)
    ensures
        (add_registers(hash, r)[0] - hash[0] - r.a) % 0x1_0000_0000 == 0,
        (add_registers(hash, r)[1] - hash[1] - r.b) % 0x1_0000_0000 == 0,
        (add_registers(hash, r)[2] - hash[2] - r.c) % 0x1_0000_0000 == 0,
        (add_registers(hash, r)[3] - hash[3] - r.d) % 0x1_0000_0000 == 0,
        (add_registers(hash, r)[4] - hash[4] - r.e) % 0x1_0000_0000 == 0,
        (add_registers(hash, r)[5] - hash[5] - r.f) % 0x1_0000_0000 == 0,
        (add_registers(hash, r)[6] - hash[6] - r.g) % 0x1_0000_0000 == 0,
        (add_registers(hash, r)[7] - hash[7] - r.h) % 0x1_0000_0000 == 0,
{
    law_word(hash[0] + r.a);
    law_word(hash[1] + r.b);
    law_word(hash[2] + r.c);
    law_word(hash[3] + r.d);
    law_word(hash[4] + r.e);
    law_word(hash[5] + r.f);
    law_word(hash[6] + r.g);
    law_word(hash[7] + r.h);
}

/// Compressing a block changes each word of the hash value by the working
/// variable that belongs to it after the 64 rounds, modulo `2^32`.
pub proof fn law_compress(hash: Seq<u32>, block: Seq<u8>)
    requires
        hash.len() == 8,
        block.len() == 64,
    ensures
        ({
            let r = rounds(hash, block, 64);
            let result = compress(hash, block);
            &&& result.len() == 8
            &&& (result[0] - hash[0] - r.a) % 0x1_0000_0000 == 0
            &&& (result[1] - hash[1] - r.b) % 0x1_0000_0000 == 0
            &&& (result[2] - hash[2] - r.c) % 0x1_0000_0000 == 0
            &&& (result[3] - hash[3] - r.d) % 0x1_0000_0000 == 0
            &&& (result[4] - hash[4] - r.e) % 0x1_0000_0000 == 0
            &&& (result[5] - hash[5] - r.f) % 0x1_0000_0000 == 0
            &&& (result[6] - hash[6] - r.g) % 0x1_0000_0000 == 0
            &&& (result[7] - hash[7] - r.h) % 0x1_0000_0000 == 0
        }),
{
    reveal(compress);
    lemma_sums(hash, rounds(hash, block, 64));
}

/// Compressing a keyed schedule changes each word of the hash value by the
/// working variable that belongs to it after the 64 rounds, modulo `2^32`.
pub proof fn law_keyed_compress(hash: Seq<u32>, schedule: Seq<u32>)
    requires
        hash.len() == 8,
        schedule.len() == 64,
    ensures
        ({
            let r = keyed_rounds(hash, schedule, 64);
            let result = keyed_compress(hash, schedule);
            &&& result.len() == 8
            &&& (result[0] - hash[0] - r.a) % 0x1_0000_0000 == 0
            &&& (result[1] - hash[1] - r.b) % 0x1_0000_0000 == 0
            &&& (result[2] - hash[2] - r.c) % 0x1_0000_0000 == 0
            &&& (result[3] - hash[3] - r.d) % 0x1_0000_0000 == 0
            &&& (result[4] - hash[4] - r.e) % 0x1_0000_0000 == 0
            &&& (result[5] - hash[5] - r.f) % 0x1_0000_0000 == 0
            &&& (result[6] - hash[6] - r.g) % 0x1_0000_0000 == 0
            &&& (result[7] - hash[7] - r.h) % 0x1_0000_0000 == 0
        }),
{
    reveal(keyed_compress);
    lemma_sums(hash, keyed_rounds(hash, schedule, 64));
}

/// Blocks follow each other without gap or overlap.
pub proof fn law_blocks_follow(data: Seq<u8>, k: int)
    requires
        0 <= k,
        64 * k + 64 <= data.len(),
    ensures
        block_at(data, 0) == data.take(64),
        k > 0 ==> block_at(data, k) == block_at(data.skip(64), k - 1),
{
    if k > 0 {
        assert(block_at(data, k) =~= block_at(data.skip(64), k - 1));
    }
}

/// Absorbing no block changes nothing; absorbing some is compressing the first
/// and absorbing the others.
pub proof fn law_absorb_from_front(hash: Seq<u32>, data: Seq<u8>, n: nat)
    requires
        64 * n + 64 <= data.len(),
    ensures
        absorb(hash, data, 0) == hash,
        absorb(hash, data, n + 1) == absorb(compress(hash, data.take(64)), data.skip(64), n),
    decreases n,
{
    if n == 0 {
        reveal_with_fuel(absorb, 2);
    } else {
        law_absorb_from_front(hash, data, (n - 1) as nat);
        law_blocks_follow(data, n as int);
    }
}

/// Four bytes of the big-endian form of a word, put together again.
pub proof fn law_be_bytes_of_word(x: nat)
    requires
        x < 0x1_0000_0000,
    ensures
        be_bytes(x, 4).len() == 4,
        x == ((be_bytes(x, 4)[0] * 256 + be_bytes(x, 4)[1]) * 256 + be_bytes(x, 4)[2]) * 256
            + be_bytes(x, 4)[3],
{
    reveal_with_fuel(be_byte, 5);
}

/// Eight bytes of the big-endian form of a number, put together again.
pub proof fn law_be_bytes_of_length(x: nat)
    requires
        x < 0x1_0000_0000_0000_0000,
    ensures
        ({
            let b = be_bytes(x, 8);
            &&& b.len() == 8
            &&& x == ((((((b[0] * 256 + b[1]) * 256 + b[2]) * 256 + b[3]) * 256 + b[4]) * 256
                + b[5]) * 256 + b[6]) * 256 + b[7]
        }),
{
    reveal_with_fuel(be_byte, 9);
}

/// As many zeros as fill the last block: fewer than a block of them.
proof fn lemma_zeros(n: int, zeros: int)
    requires
        0 <= n,
    ensures
        zeros == (119 - n % 64) % 64 <==> 0 <= zeros < 64 && (n + 9 + zeros) % 64 == 0,
{
}

/// Where the parts of a padded message stand.
#[verifier::spinoff_prover]
proof fn lemma_padded_parts(message: Seq<u8>)
    ensures
        ({
            let p = padded(message);
            let n = message.len() as int;
            let e = p.len() - 8;
            let b = be_bytes(8 * message.len(), 8);
            &&& p.len() == n + 9 + (119 - n % 64) % 64
            &&& p[n] == 0x80
            &&& forall|i: int| n < i < e ==> #[trigger] p[i] == 0
            &&& p[e] == b[0] && p[e + 1] == b[1] && p[e + 2] == b[2] && p[e + 3] == b[3]
            &&& p[e + 4] == b[4] && p[e + 5] == b[5] && p[e + 6] == b[6] && p[e + 7] == b[7]
        }),
{
    let n = message.len() as int;
    let zeros = (119 - n % 64) % 64;
    let front = message + seq![0x80u8] + Seq::new(zeros as nat, |i: int| 0u8);
    let b = be_bytes(8 * message.len(), 8);
    assert(front.len() == n + 1 + zeros);
    assert(padded(message) == front + b);
}

/// Padding keeps the message, ends it with the byte `0x80`, fills up with zeros
/// and ends with the length in bits, most significant byte first. It fills whole
/// blocks, and one block fewer would not hold it.
#[verifier::spinoff_prover]
pub proof fn law_padding(message: Seq<u8>)
    requires
        8 * message.len() < 0x1_0000_0000_0000_0000,
    ensures
        ({
            let p = padded(message);
            let n = message.len() as int;
            let e = p.len() - 8;
            &&& p.len() % 64 == 0
            &&& n + 9 <= p.len() < n + 9 + 64
            &&& p.take(n) == message
            &&& p[n] == 0x80
            &&& forall|i: int| n < i < e ==> #[trigger] p[i] == 0
            &&& ((((((p[e] * 256 + p[e + 1]) * 256 + p[e + 2]) * 256 + p[e + 3]) * 256 + p[e + 4])
                * 256 + p[e + 5]) * 256 + p[e + 6]) * 256 + p[e + 7] == 8 * n
        }),
{
    let p = padded(message);
    let n = message.len() as int;
    lemma_zeros(n, (119 - n % 64) % 64);
    lemma_padded_parts(message);
    law_be_bytes_of_length(8 * message.len());
    assert(p.take(n) =~= message);
}

proof fn lemma_last_digit(p: int, x: u8, q: int, y: u8)
    requires
        p * 256 + x == q * 256 + y,
    ensures
        p == q,
        x == y,
{
}

/// Eight bytes are determined by the number that they make up.
proof fn lemma_eight_digits(a: Seq<u8>, b: Seq<u8>)
    requires
        a.len() == 8,
        b.len() == 8,
        ((((((a[0] * 256 + a[1]) * 256 + a[2]) * 256 + a[3]) * 256 + a[4]) * 256 + a[5]) * 256
            + a[6]) * 256 + a[7] == ((((((b[0] * 256 + b[1]) * 256 + b[2]) * 256 + b[3]) * 256
            + b[4]) * 256 + b[5]) * 256 + b[6]) * 256 + b[7],
    ensures
        a == b,
{
    let a1 = a[0] * 256 + a[1];
    let a2 = a1 * 256 + a[2];
    let a3 = a2 * 256 + a[3];
    let a4 = a3 * 256 + a[4];
    let a5 = a4 * 256 + a[5];
    let a6 = a5 * 256 + a[6];
    let b1 = b[0] * 256 + b[1];
    let b2 = b1 * 256 + b[2];
    let b3 = b2 * 256 + b[3];
    let b4 = b3 * 256 + b[4];
    let b5 = b4 * 256 + b[5];
    let b6 = b5 * 256 + b[6];
    lemma_last_digit(a6, a[7], b6, b[7]);
    lemma_last_digit(a5, a[6], b5, b[6]);
    lemma_last_digit(a4, a[5], b4, b[5]);
    lemma_last_digit(a3, a[4], b3, b[4]);
    lemma_last_digit(a2, a[3], b2, b[3]);
    lemma_last_digit(a1, a[2], b1, b[2]);
    lemma_last_digit(a[0] as int, a[1], b[0] as int, b[1]);
    assert(a =~= b);
}

/// Of all texts that start with the message and `0x80`, go on with zeros, end
/// with the length and fill the fewest blocks, there is one only, and the final
/// hash value is what absorbing its blocks makes of the initial one.
#[verifier::spinoff_prover]
pub proof fn law_hash_absorbs_padding(message: Seq<u8>, zeros: nat, length: Seq<u8>, blocks: nat)
    requires
        8 * message.len() < 0x1_0000_0000_0000_0000,
        zeros < 64,
        length.len() == 8,
        ((((((length[0] * 256 + length[1]) * 256 + length[2]) * 256 + length[3]) * 256 + length[4])
            * 256 + length[5]) * 256 + length[6]) * 256 + length[7] == 8 * message.len(),
        message.len() + 9 + zeros == 64 * blocks,
    ensures
        sha256_words(message) == absorb(
            H256_256@,
            message + seq![0x80u8] + Seq::new(zeros, |i: int| 0u8) + length,
            blocks,
        ),
{
    law_be_bytes_of_length(8 * message.len());
    lemma_eight_digits(be_bytes(8 * message.len(), 8), length);
    lemma_zeros(message.len() as int, zeros as int);
    lemma_padded_parts(message);
}

/// The digest is the eight words of the final hash value, most significant byte
/// first.
pub proof fn law_digest_bytes(message: Seq<u8>, i: int)
    requires
        0 <= i < 8,
    ensures
        ({
            let d = sha256(message);
            &&& d.len() == 32
            &&& sha256_words(message)[i] == ((d[4 * i] * 256 + d[4 * i + 1]) * 256 + d[4 * i + 2])
                * 256 + d[4 * i + 3]
        }),
{
    let x = sha256_words(message)[i] as nat;
    let d = sha256(message);
    law_be_bytes_of_word(x);
    let b = be_bytes(x, 4);
    assert(d[4 * i] == b[0]);
    assert(d[4 * i + 1] == b[1]);
    assert(d[4 * i + 2] == b[2]);
    assert(d[4 * i + 3] == b[3]);
}

} // verus!

//! The SHA-256 hash function (FIPS 180-4) as a mathematical model: bytes in,
//! words and bytes out, sums taken over the integers and reduced once.

use vstd::prelude::*;

verus! {

/// The initial hash value: the first 32 bits of the fractional parts of the
/// square roots of the first eight primes.
pub const H256_256: [u32; 8] = [
    0x6a09e667, 0xbb67ae85, 0x3c6ef372, 0xa54ff53a, 0x510e527f, 0x9b05688c, 0x1f83d9ab, 0x5be0cd19,
];

/// The round constants: the first 32 bits of the fractional parts of the cube
/// roots of the first sixty-four primes.
pub const K32: [u32; 64] = [
    0x428a2f98, 0x71374491, 0xb5c0fbcf, 0xe9b5dba5, 0x3956c25b, 0x59f111f1, 0x923f82a4, 0xab1c5ed5,
    0xd807aa98, 0x12835b01, 0x243185be, 0x550c7dc3, 0x72be5d74, 0x80deb1fe, 0x9bdc06a7, 0xc19bf174,
    0xe49b69c1, 0xefbe4786, 0x0fc19dc6, 0x240ca1cc, 0x2de92c6f, 0x4a7484aa, 0x5cb0a9dc, 0x76f988da,
    0x983e5152, 0xa831c66d, 0xb00327c8, 0xbf597fc7, 0xc6e00bf3, 0xd5a79147, 0x06ca6351, 0x14292967,
    0x27b70a85, 0x2e1b2138, 0x4d2c6dfc, 0x53380d13, 0x650a7354, 0x766a0abb, 0x81c2c92e, 0x92722c85,
    0xa2bfe8a1, 0xa81a664b, 0xc24b8b70, 0xc76c51a3, 0xd192e819, 0xd6990624, 0xf40e3585, 0x106aa070,
    0x19a4c116, 0x1e376c08, 0x2748774c, 0x34b0bcb5, 0x391c0cb3, 0x4ed8aa4a, 0x5b9cca4f, 0x682e6ff3,
    0x748f82ee, 0x78a5636f, 0x84c87814, 0x8cc70208, 0x90befffa, 0xa4506ceb, 0xbef9a3f7, 0xc67178f2,
];

/// Reduces an integer modulo `2^32`.
pub open spec fn word(x: int) -> u32 {
    (x % 0x1_0000_0000) as u32
}

/// Rotation of a word to the right by `n` bits, `0 < n < 32`.
pub open spec fn rotr(x: u32, n: u32) -> u32 {
    (x >> n) | (x << ((32 - n) as u32))
}

pub open spec fn lower_sigma0(x: u32) -> u32 {
    rotr(x, 7) ^ rotr(x, 18) ^ (x >> 3)
}

pub open spec fn lower_sigma1(x: u32) -> u32 {
    rotr(x, 17) ^ rotr(x, 19) ^ (x >> 10)
}

pub open spec fn upper_sigma0(x: u32) -> u32 {
    rotr(x, 2) ^ rotr(x, 13) ^ rotr(x, 22)
}

pub open spec fn upper_sigma1(x: u32) -> u32 {
    rotr(x, 6) ^ rotr(x, 11) ^ rotr(x, 25)
}

/// Bit by bit: `y` where `x` is one, `z` where it is zero.
pub open spec fn choice(x: u32, y: u32, z: u32) -> u32 {
    (x & y) ^ (!x & z)
}

/// Bit by bit: the value that at least two of the three bits have.
pub open spec fn majority(x: u32, y: u32, z: u32) -> u32 {
    (x & y) ^ (x & z) ^ (y & z)
}

/// The big-endian word that starts at byte `at`.
pub open spec fn be_word(bytes: Seq<u8>, at: int) -> u32 {
    (bytes[at] * 0x100_0000 + bytes[at + 1] * 0x1_0000 + bytes[at + 2] * 0x100 + bytes[at + 3]) as u32
}

/// Word `t` of the message schedule of a 64-byte block.
pub open spec fn schedule_word(block: Seq<u8>, t: nat) -> u32
    decreases t,
{
    if t < 16 {
        be_word(block, 4 * t as int)
    } else {
        word(
            lower_sigma1(schedule_word(block, (t - 2) as nat)) + schedule_word(block, (t - 7) as nat)
                + lower_sigma0(schedule_word(block, (t - 15) as nat)) + schedule_word(
                block,
                (t - 16) as nat,
            ),
        )
    }
}

/// The eight working variables of the compression function.
pub struct Registers {
    pub a: u32,
    pub b: u32,
    pub c: u32,
    pub d: u32,
    pub e: u32,
    pub f: u32,
    pub g: u32,
    pub h: u32,
}

/// The working variables that a hash value starts with.
pub open spec fn load(hash: Seq<u32>) -> Registers {
    Registers {
        a: hash[0],
        b: hash[1],
        c: hash[2],
        d: hash[3],
        e: hash[4],
        f: hash[5],
        g: hash[6],
        h: hash[7],
    }
}

/// One round; `kw` is the sum of its round constant and its schedule word.
pub open spec fn round(r: Registers, kw: int) -> Registers {
    let t1 = r.h + upper_sigma1(r.e) + choice(r.e, r.f, r.g) + kw;
    let t2 = upper_sigma0(r.a) + majority(r.a, r.b, r.c);
    Registers { a: word(t1 + t2), b: r.a, c: r.b, d: r.c, e: word(r.d + t1), f: r.e, g: r.f, h: r.g }
}

/// The working variables after the first `n` rounds on a block.
pub open spec fn rounds(hash: Seq<u32>, block: Seq<u8>, n: nat) -> Registers
    decreases n,
{
    if n == 0 {
        load(hash)
    } else {
        round(
            rounds(hash, block, (n - 1) as nat),
            K32[n - 1] + schedule_word(block, (n - 1) as nat),
        )
    }
}

/// Adds the working variables to a hash value, word by word.
pub open spec fn add_registers(hash: Seq<u32>, r: Registers) -> Seq<u32> {
    seq![
        word(hash[0] + r.a),
        word(hash[1] + r.b),
        word(hash[2] + r.c),
        word(hash[3] + r.d),
        word(hash[4] + r.e),
        word(hash[5] + r.f),
        word(hash[6] + r.g),
        word(hash[7] + r.h),
    ]
}

/// The compression function: the hash value after one more block.
#[verifier::opaque]
pub open spec fn compress(hash: Seq<u32>, block: Seq<u8>) -> Seq<u32> {
    add_registers(hash, rounds(hash, block, 64))
}

/// The 64-byte block number `k` of a byte sequence.
pub open spec fn block_at(data: Seq<u8>, k: int) -> Seq<u8> {
    data.subrange(64 * k, 64 * k + 64)
}

/// The hash value after the first `n` blocks of `data`.
pub open spec fn absorb(hash: Seq<u32>, data: Seq<u8>, n: nat) -> Seq<u32>
    decreases n,
{
    if n == 0 {
        hash
    } else {
        compress(absorb(hash, data, (n - 1) as nat), block_at(data, n - 1))
    }
}

/// Byte `i` of the `n`-byte big-endian form of `x` (of its low bytes, where it
/// has more).
pub open spec fn be_byte(x: nat, n: nat, i: int) -> u8
    decreases n,
{
    if n == 0 {
        0
    } else if i == n - 1 {
        (x % 256) as u8
    } else {
        be_byte(x / 256, (n - 1) as nat, i)
    }
}

/// The `n`-byte big-endian form of `x`.
pub open spec fn be_bytes(x: nat, n: nat) -> Seq<u8> {
    Seq::new(n, |i: int| be_byte(x, n, i))
}

/// A message as it is hashed: followed by the byte `0x80`, by as few zeros as
/// fill the last block, and by its length in bits as eight bytes.
pub open spec fn padded(message: Seq<u8>) -> Seq<u8> {
    let zeros = ((119 - message.len() % 64) % 64) as nat;
    message + seq![0x80u8] + Seq::new(zeros, |i: int| 0u8) + be_bytes(8 * message.len(), 8)
}

/// The final hash value of a message, as eight words.
pub open spec fn sha256_words(message: Seq<u8>) -> Seq<u32> {
    absorb(H256_256@, padded(message), padded(message).len() / 64)
}

/// The SHA-256 digest of a message: 32 bytes.
pub open spec fn sha256(message: Seq<u8>) -> Seq<u8> {
    Seq::new(32, |i: int| be_byte(sha256_words(message)[i / 4] as nat, 4, i % 4))
}

} // verus!

//! SHA-256 on 32-bit words, as the standard defines it.
use crate::bits::{to_nats, word_value};
use crate::constants::{initial_hash, round_constant_words};
use crate::padding_spec::{minimal_padded_len, pad_spec};
use vstd::prelude::*;

verus! {

/// Rotation of a 32-bit word to the right by `n` places, for `n` from 1
/// to 31.
pub open spec fn rotr(x: u32, n: u32) -> u32 {
    (x >> n) | (x << ((32 - n) as u32))
}

/// Addition of 32-bit words modulo 2^32.
pub open spec fn add32(x: u32, y: u32) -> u32 {
    ((x + y) % 0x1_0000_0000) as u32
}

/// `Ch(x, y, z)`.
pub open spec fn ch(x: u32, y: u32, z: u32) -> u32 {
    (x & y) ^ (!x & z)
}

/// `Maj(x, y, z)`.
pub open spec fn maj(x: u32, y: u32, z: u32) -> u32 {
    (x & y) ^ (x & z) ^ (y & z)
}

/// The function written as a capital sigma with index 0.
pub open spec fn bsig0(x: u32) -> u32 {
    rotr(x, 2) ^ rotr(x, 13) ^ rotr(x, 22)
}

/// The function written as a capital sigma with index 1.
pub open spec fn bsig1(x: u32) -> u32 {
    rotr(x, 6) ^ rotr(x, 11) ^ rotr(x, 25)
}

/// The function written as a small sigma with index 0.
pub open spec fn ssig0(x: u32) -> u32 {
    rotr(x, 7) ^ rotr(x, 18) ^ (x >> 3)
}

/// The function written as a small sigma with index 1.
pub open spec fn ssig1(x: u32) -> u32 {
    rotr(x, 17) ^ rotr(x, 19) ^ (x >> 10)
}

/// Word `t` of the message schedule of a block of sixteen words.
pub open spec fn message_word(block: Seq<u32>, t: int) -> u32
    decreases t,
{
    if t < 16 {
        block[t]
    } else {
        add32(
            add32(ssig1(message_word(block, t - 2)), message_word(block, t - 7)),
            add32(ssig0(message_word(block, t - 15)), message_word(block, t - 16)),
        )
    }
}

/// One round on the eight working variables `a` to `h`, with round
/// constant `k` and schedule word `w`.
pub open spec fn sha_round(v: Seq<u32>, k: u32, w: u32) -> Seq<u32> {
    let t1 = add32(add32(add32(add32(v[7], bsig1(v[4])), ch(v[4], v[5], v[6])), k), w);
    let t2 = add32(bsig0(v[0]), maj(v[0], v[1], v[2]));
    seq![add32(t1, t2), v[0], v[1], v[2], add32(v[3], t1), v[4], v[5], v[6]]
}

/// The working variables after the first `n` rounds on a block.
pub open spec fn sha_rounds(v: Seq<u32>, block: Seq<u32>, n: nat) -> Seq<u32>
    decreases n,
{
    if n == 0 {
        v
    } else {
        sha_round(
            sha_rounds(v, block, (n - 1) as nat),
            round_constant_words()[n - 1],
            message_word(block, n - 1),
        )
    }
}

/// The hash value after one block: the hash value before, plus the working
/// variables that 64 rounds made of it.
pub open spec fn sha_compress(h: Seq<u32>, block: Seq<u32>) -> Seq<u32> {
    Seq::new(8, |i: int| add32(sha_rounds(h, block, 64)[i], h[i]))
}

/// The sixteen words of block `n` of a string of binary digits, each word
/// made of 32 digits, most significant first.
pub open spec fn block_words(bits: Seq<u8>, n: int) -> Seq<u32> {
    Seq::new(
        16,
        |j: int| word_value(to_nats(bits.subrange(512 * n + 32 * j, 512 * n + 32 * j + 32))) as u32,
    )
}

/// The hash value after the first `n` blocks of a string of binary digits.
pub open spec fn sha_blocks(h: Seq<u32>, bits: Seq<u8>, n: nat) -> Seq<u32>
    decreases n,
{
    if n == 0 {
        h
    } else {
        sha_compress(sha_blocks(h, bits, (n - 1) as nat), block_words(bits, n - 1))
    }
}

/// SHA-256 of a message given as binary digits: the message is padded to
/// whole blocks, and the blocks are compressed one after the other into the
/// initial hash value.
pub open spec fn sha256(message: Seq<u8>) -> Seq<u32> {
    sha_blocks(
        initial_hash(),
        pad_spec(message, minimal_padded_len(message.len())),
        minimal_padded_len(message.len()) / 512,
    )
}

} // verus!

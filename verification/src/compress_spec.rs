//! What the compression computes in a field of `m` elements: message
//! schedule, rounds, state update, and the chain over the chunks.
use crate::algebra_spec::{field_add, field_and, field_not, field_xor, rotate_seq, shift_seq};
use crate::constants::{encode_words, round_constant_words};
use crate::sha_helpers::lift_bits;
use vstd::prelude::*;

verus! {

/// The exclusive OR of three words.
pub open spec fn xor3(a: Seq<nat>, b: Seq<nat>, c: Seq<nat>, m: nat) -> Seq<nat> {
    field_xor(field_xor(a, b, m), c, m)
}

/// The first mixing function of the message schedule.
pub open spec fn small_sigma0(w: Seq<nat>, m: nat) -> Seq<nat> {
    xor3(rotate_seq(w, 7), rotate_seq(w, 18), shift_seq(w, 3, 0nat), m)
}

/// The second mixing function of the message schedule.
pub open spec fn small_sigma1(w: Seq<nat>, m: nat) -> Seq<nat> {
    xor3(rotate_seq(w, 17), rotate_seq(w, 19), shift_seq(w, 10, 0nat), m)
}

/// The mixing function applied to the first working variable.
pub open spec fn big_sigma0(a: Seq<nat>, m: nat) -> Seq<nat> {
    xor3(rotate_seq(a, 2), rotate_seq(a, 13), rotate_seq(a, 22), m)
}

/// The mixing function applied to the fifth working variable.
pub open spec fn big_sigma1(e: Seq<nat>, m: nat) -> Seq<nat> {
    xor3(rotate_seq(e, 6), rotate_seq(e, 11), rotate_seq(e, 25), m)
}

/// Digit by digit, `f` where `e` is 1 and `g` where `e` is 0.
pub open spec fn choice(e: Seq<nat>, f: Seq<nat>, g: Seq<nat>, m: nat) -> Seq<nat> {
    field_xor(field_and(e, f, m), field_and(field_not(e, m), g, m), m)
}

/// Digit by digit, the value that at least two of the three words have.
pub open spec fn majority(a: Seq<nat>, b: Seq<nat>, c: Seq<nat>, m: nat) -> Seq<nat> {
    field_xor(field_xor(field_and(a, b, m), field_and(a, c, m), m), field_and(b, c, m), m)
}

/// Word `t` of the message schedule of a 512-digit chunk: the first
/// sixteen are the chunk itself, each later one is made of four earlier
/// ones.
pub open spec fn schedule_word(chunk: Seq<nat>, m: nat, t: int) -> Seq<nat>
    decreases t,
{
    if t < 16 {
        chunk.subrange(32 * t, 32 * t + 32)
    } else {
        field_add(
            field_add(
                small_sigma1(schedule_word(chunk, m, t - 2), m),
                schedule_word(chunk, m, t - 7),
                m,
            ),
            field_add(
                small_sigma0(schedule_word(chunk, m, t - 15), m),
                schedule_word(chunk, m, t - 16),
                m,
            ),
            m,
        )
    }
}

/// The first temporary word of a round.
pub open spec fn round_t1(v: Seq<Seq<nat>>, k: Seq<nat>, w: Seq<nat>, m: nat) -> Seq<nat> {
    field_add(
        field_add(
            field_add(field_add(v[7], big_sigma1(v[4], m), m), choice(v[4], v[5], v[6], m), m),
            k,
            m,
        ),
        w,
        m,
    )
}

/// The second temporary word of a round.
pub open spec fn round_t2(v: Seq<Seq<nat>>, m: nat) -> Seq<nat> {
    field_add(big_sigma0(v[0], m), majority(v[0], v[1], v[2], m), m)
}

/// One round of mixing on the eight working variables, with round
/// constant `k` and schedule word `w`.
pub open spec fn round_step(v: Seq<Seq<nat>>, k: Seq<nat>, w: Seq<nat>, m: nat) -> Seq<Seq<nat>> {
    seq![
        field_add(round_t1(v, k, w, m), round_t2(v, m), m),
        v[0],
        v[1],
        v[2],
        field_add(v[3], round_t1(v, k, w, m), m),
        v[4],
        v[5],
        v[6],
    ]
}

/// The working variables after the first `n` rounds on a chunk.
pub open spec fn rounds(
    v: Seq<Seq<nat>>,
    ks: Seq<Seq<nat>>,
    chunk: Seq<nat>,
    m: nat,
    n: nat,
) -> Seq<Seq<nat>>
    decreases n,
{
    if n == 0 {
        v
    } else {
        round_step(
            rounds(v, ks, chunk, m, (n - 1) as nat),
            ks[n - 1],
            schedule_word(chunk, m, n - 1),
            m,
        )
    }
}

/// The state after one chunk: each word of the state before, plus the
/// working variable that 64 rounds made of it.
pub open spec fn compress(
    state: Seq<Seq<nat>>,
    ks: Seq<Seq<nat>>,
    chunk: Seq<nat>,
    m: nat,
) -> Seq<Seq<nat>> {
    Seq::new(8, |i: int| field_add(rounds(state, ks, chunk, m, 64)[i], state[i], m))
}

/// Chunk `n` of a preimage, lifted into a field of `m` elements.
pub open spec fn chunk_values(preimage: Seq<u8>, m: nat, n: int) -> Seq<nat> {
    lift_bits(preimage.subrange(512 * n, 512 * n + 512), 512, m)
}

/// The state after the first `n` chunks of a preimage, taken in order.
pub open spec fn absorb(
    state: Seq<Seq<nat>>,
    ks: Seq<Seq<nat>>,
    preimage: Seq<u8>,
    m: nat,
    n: nat,
) -> Seq<Seq<nat>>
    decreases n,
{
    if n == 0 {
        state
    } else {
        compress(
            absorb(state, ks, preimage, m, (n - 1) as nat),
            ks,
            chunk_values(preimage, m, n - 1),
            m,
        )
    }
}

/// The state after every whole chunk of a preimage, with the round
/// constants of SHA-256.
pub open spec fn hash_values(state: Seq<Seq<nat>>, preimage: Seq<u8>, m: nat) -> Seq<Seq<nat>> {
    absorb(state, encode_words(round_constant_words()), preimage, m, preimage.len() / 512)
}

} // verus!

//! Proofs that the compression computed in a field, on binary digits, is
//! the compression of SHA-256 on 32-bit words.
use crate::algebra_spec::{
    field_add, field_and, field_not, field_xor, lemma_field_and_bits, lemma_field_not_bits,
    lemma_field_xor_bits, rotate_seq, shift_seq,
};
use crate::bits::{all_bits, all_words, is_bit, is_bit_string, lemma_word_value_of_word_bits, to_nats};
use crate::compress_spec::{
    absorb, big_sigma0, big_sigma1, chunk_values, choice, compress, hash_values, majority,
    round_step, round_t1, round_t2, rounds, schedule_word, small_sigma0, small_sigma1, xor3,
};
use crate::constants::{encode_words, round_constant_words};
use crate::sha256_spec::{
    add32, block_words, bsig0, bsig1, ch, maj, message_word, sha_blocks, sha_compress, sha_round,
    sha_rounds, ssig0, ssig1,
};
use crate::word_lemmas::{
    is_word, lemma_add_word, lemma_and_word, lemma_not_word, lemma_rotate_word, lemma_shift_word,
    lemma_xor_word, word_of, words_of,
};
use vstd::prelude::*;

verus! {

/// Eight words of binary digits, as the state of the hash is.
pub open spec fn is_state(v: Seq<Seq<nat>>) -> bool {
    v.len() == 8 && all_words(v)
}

/// The sixteen 32-bit words of a chunk of 512 binary digits.
pub open spec fn chunk_words(chunk: Seq<nat>) -> Seq<u32> {
    Seq::new(16, |j: int| word_of(chunk.subrange(32 * j, 32 * j + 32)))
}

/// On words of digits the field expression for XOR is the `^` of the
/// words.
pub proof fn lemma_field_xor_word(a: Seq<nat>, b: Seq<nat>, m: nat)
    requires
        is_word(a),
        is_word(b),
        m > 1,
    ensures
        is_word(field_xor(a, b, m)),
        word_of(field_xor(a, b, m)) == word_of(a) ^ word_of(b),
{
    lemma_field_xor_bits(a, b, m);
    lemma_xor_word(a, b);
}

/// On words of digits the field expression for AND is the `&` of the
/// words.
pub proof fn lemma_field_and_word(a: Seq<nat>, b: Seq<nat>, m: nat)
    requires
        is_word(a),
        is_word(b),
        m > 1,
    ensures
        is_word(field_and(a, b, m)),
        word_of(field_and(a, b, m)) == word_of(a) & word_of(b),
{
    lemma_field_and_bits(a, b, m);
    lemma_and_word(a, b);
}

/// On a word of digits the field expression for NOT is the `!` of the
/// word.
pub proof fn lemma_field_not_word(a: Seq<nat>, m: nat)
    requires
        is_word(a),
        m > 1,
    ensures
        is_word(field_not(a, m)),
        word_of(field_not(a, m)) == !word_of(a),
{
    lemma_field_not_bits(a, m);
    lemma_not_word(a);
}

proof fn lemma_xor3_word(a: Seq<nat>, b: Seq<nat>, c: Seq<nat>, m: nat)
    requires
        is_word(a),
        is_word(b),
        is_word(c),
        m > 1,
    ensures
        is_word(xor3(a, b, c, m)),
        word_of(xor3(a, b, c, m)) == word_of(a) ^ word_of(b) ^ word_of(c),
{
    lemma_field_xor_word(a, b, m);
    lemma_field_xor_word(field_xor(a, b, m), c, m);
}

/// The four mixing functions, the choice and the majority, computed in
/// the field on words of digits, are those of SHA-256 on 32-bit words.
pub proof fn lemma_mixing_words(x: Seq<nat>, y: Seq<nat>, z: Seq<nat>, m: nat)
    requires
        is_word(x),
        is_word(y),
        is_word(z),
        m > 1,
    ensures
        is_word(small_sigma0(x, m)) && word_of(small_sigma0(x, m)) == ssig0(word_of(x)),
        is_word(small_sigma1(x, m)) && word_of(small_sigma1(x, m)) == ssig1(word_of(x)),
        is_word(big_sigma0(x, m)) && word_of(big_sigma0(x, m)) == bsig0(word_of(x)),
        is_word(big_sigma1(x, m)) && word_of(big_sigma1(x, m)) == bsig1(word_of(x)),
        is_word(choice(x, y, z, m)) && word_of(choice(x, y, z, m)) == ch(
            word_of(x),
            word_of(y),
            word_of(z),
        ),
        is_word(majority(x, y, z, m)) && word_of(majority(x, y, z, m)) == maj(
            word_of(x),
            word_of(y),
            word_of(z),
        ),
{
    lemma_rotate_word(x, 7);
    lemma_rotate_word(x, 18);
    lemma_shift_word(x, 3);
    lemma_xor3_word(rotate_seq(x, 7), rotate_seq(x, 18), shift_seq(x, 3, 0nat), m);
    lemma_rotate_word(x, 17);
    lemma_rotate_word(x, 19);
    lemma_shift_word(x, 10);
    lemma_xor3_word(rotate_seq(x, 17), rotate_seq(x, 19), shift_seq(x, 10, 0nat), m);
    lemma_rotate_word(x, 2);
    lemma_rotate_word(x, 13);
    lemma_rotate_word(x, 22);
    lemma_xor3_word(rotate_seq(x, 2), rotate_seq(x, 13), rotate_seq(x, 22), m);
    lemma_rotate_word(x, 6);
    lemma_rotate_word(x, 11);
    lemma_rotate_word(x, 25);
    lemma_xor3_word(rotate_seq(x, 6), rotate_seq(x, 11), rotate_seq(x, 25), m);
    lemma_field_and_word(x, y, m);
    lemma_field_not_word(x, m);
    lemma_field_and_word(field_not(x, m), z, m);
    lemma_field_xor_word(field_and(x, y, m), field_and(field_not(x, m), z, m), m);
    lemma_field_and_word(x, z, m);
    lemma_field_and_word(y, z, m);
    lemma_field_xor_word(field_and(x, y, m), field_and(x, z, m), m);
    lemma_field_xor_word(
        field_xor(field_and(x, y, m), field_and(x, z, m), m),
        field_and(y, z, m),
        m,
    );
}

/// Each word of the message schedule, computed in the field on a chunk of
/// binary digits, is the word of the message schedule of SHA-256.
pub proof fn lemma_schedule_word(chunk: Seq<nat>, m: nat, t: int)
    requires
        chunk.len() == 512,
        all_bits(chunk),
        m > 3,
        0 <= t < 64,
    ensures
        is_word(schedule_word(chunk, m, t)),
        word_of(schedule_word(chunk, m, t)) == message_word(chunk_words(chunk), t),
    decreases t,
{
    if t < 16 {
        let w = chunk.subrange(32 * t, 32 * t + 32);
        assert forall|i: int| 0 <= i < w.len() implies is_bit(#[trigger] w[i]) by {
            assert(w[i] == chunk[32 * t + i]);
        }
    } else {
        lemma_schedule_word(chunk, m, t - 2);
        lemma_schedule_word(chunk, m, t - 7);
        lemma_schedule_word(chunk, m, t - 15);
        lemma_schedule_word(chunk, m, t - 16);
        let w2 = schedule_word(chunk, m, t - 2);
        let w7 = schedule_word(chunk, m, t - 7);
        let w15 = schedule_word(chunk, m, t - 15);
        let w16 = schedule_word(chunk, m, t - 16);
        lemma_mixing_words(w2, w2, w2, m);
        lemma_mixing_words(w15, w15, w15, m);
        lemma_add_word(small_sigma1(w2, m), w7, m);
        lemma_add_word(small_sigma0(w15, m), w16, m);
        lemma_add_word(
            field_add(small_sigma1(w2, m), w7, m),
            field_add(small_sigma0(w15, m), w16, m),
            m,
        );
    }
}

/// One round computed in the field on words of digits is one round of
/// SHA-256.
pub proof fn lemma_round_step(v: Seq<Seq<nat>>, k: Seq<nat>, w: Seq<nat>, m: nat)
    requires
        is_state(v),
        is_word(k),
        is_word(w),
        m > 3,
    ensures
        is_state(round_step(v, k, w, m)),
        words_of(round_step(v, k, w, m)) == sha_round(words_of(v), word_of(k), word_of(w)),
{
    assert(is_word(v[0]) && is_word(v[1]) && is_word(v[2]) && is_word(v[3]));
    assert(is_word(v[4]) && is_word(v[5]) && is_word(v[6]) && is_word(v[7]));
    lemma_mixing_words(v[4], v[5], v[6], m);
    lemma_mixing_words(v[0], v[1], v[2], m);
    let s1 = big_sigma1(v[4], m);
    let c = choice(v[4], v[5], v[6], m);
    lemma_add_word(v[7], s1, m);
    lemma_add_word(field_add(v[7], s1, m), c, m);
    lemma_add_word(field_add(field_add(v[7], s1, m), c, m), k, m);
    lemma_add_word(field_add(field_add(field_add(v[7], s1, m), c, m), k, m), w, m);
    let t1 = round_t1(v, k, w, m);
    let t2 = round_t2(v, m);
    lemma_add_word(big_sigma0(v[0], m), majority(v[0], v[1], v[2], m), m);
    lemma_add_word(t1, t2, m);
    lemma_add_word(v[3], t1, m);
    let r = round_step(v, k, w, m);
    assert(is_state(r)) by {
        assert forall|i: int| 0 <= i < r.len() implies (#[trigger] r[i]).len() == 32 && all_bits(
            r[i],
        ) by {
            assert(is_word(r[i]));
        }
    }
    let u = words_of(v);
    assert(u[0] == word_of(v[0]) && u[1] == word_of(v[1]) && u[2] == word_of(v[2]) && u[3]
        == word_of(v[3]));
    assert(u[4] == word_of(v[4]) && u[5] == word_of(v[5]) && u[6] == word_of(v[6]) && u[7]
        == word_of(v[7]));
    assert(words_of(r) =~= sha_round(u, word_of(k), word_of(w)));
}

/// Any number of rounds computed in the field on words of digits are the
/// rounds of SHA-256.
pub proof fn lemma_rounds(v: Seq<Seq<nat>>, chunk: Seq<nat>, m: nat, n: nat)
    requires
        is_state(v),
        chunk.len() == 512,
        all_bits(chunk),
        m > 3,
        n <= 64,
    ensures
        is_state(rounds(v, encode_words(round_constant_words()), chunk, m, n)),
        words_of(rounds(v, encode_words(round_constant_words()), chunk, m, n)) == sha_rounds(
            words_of(v),
            chunk_words(chunk),
            n,
        ),
    decreases n,
{
    if n > 0 {
        let ks = encode_words(round_constant_words());
        lemma_rounds(v, chunk, m, (n - 1) as nat);
        lemma_schedule_word(chunk, m, n - 1);
        lemma_word_value_of_word_bits(round_constant_words()[n - 1]);
        lemma_round_step(
            rounds(v, ks, chunk, m, (n - 1) as nat),
            ks[n - 1],
            schedule_word(chunk, m, n - 1),
            m,
        );
    }
}

/// The compression computed in the field on a state and a chunk of binary
/// digits is the compression of SHA-256.
pub proof fn lemma_compress(state: Seq<Seq<nat>>, chunk: Seq<nat>, m: nat)
    requires
        is_state(state),
        chunk.len() == 512,
        all_bits(chunk),
        m > 3,
    ensures
        is_state(compress(state, encode_words(round_constant_words()), chunk, m)),
        words_of(compress(state, encode_words(round_constant_words()), chunk, m)) == sha_compress(
            words_of(state),
            chunk_words(chunk),
        ),
{
    let ks = encode_words(round_constant_words());
    lemma_rounds(state, chunk, m, 64);
    let v = rounds(state, ks, chunk, m, 64);
    let r = compress(state, ks, chunk, m);
    assert forall|i: int| 0 <= i < 8 implies is_word(#[trigger] r[i]) && word_of(r[i]) == add32(
        word_of(v[i]),
        word_of(state[i]),
    ) by {
        assert(is_word(v[i]) && is_word(state[i]));
        lemma_add_word(v[i], state[i], m);
    }
    assert(words_of(r) =~= sha_compress(words_of(state), chunk_words(chunk))) by {
        assert forall|i: int| 0 <= i < 8 implies words_of(r)[i] == sha_compress(
            words_of(state),
            chunk_words(chunk),
        )[i] by {
            assert(is_word(r[i]));
            assert(words_of(v)[i] == word_of(v[i]));
        }
    }
}

/// A chunk of a string of binary digits lifts into the field as itself,
/// and its sixteen words are those of the block.
pub proof fn lemma_chunk_values(preimage: Seq<u8>, m: nat, n: int)
    requires
        is_bit_string(preimage),
        0 <= n,
        512 * n + 512 <= preimage.len(),
        m > 1,
    ensures
        chunk_values(preimage, m, n).len() == 512,
        all_bits(chunk_values(preimage, m, n)),
        chunk_words(chunk_values(preimage, m, n)) == block_words(preimage, n),
{
    let sub = preimage.subrange(512 * n, 512 * n + 512);
    let c = chunk_values(preimage, m, n);
    assert forall|i: int| 0 <= i < 512 implies #[trigger] c[i] == preimage[512 * n + i] by {
        assert(sub[i] == preimage[512 * n + i]);
        assert(preimage[512 * n + i] <= 1);
        vstd::arithmetic::div_mod::lemma_small_mod(sub[i] as nat, m);
    }
    assert forall|i: int| 0 <= i < c.len() implies is_bit(#[trigger] c[i]) by {
        assert(preimage[512 * n + i] <= 1);
    }
    assert forall|j: int| 0 <= j < 16 implies chunk_words(c)[j] == block_words(preimage, n)[j] by {
        assert(c.subrange(32 * j, 32 * j + 32) =~= to_nats(
            preimage.subrange(512 * n + 32 * j, 512 * n + 32 * j + 32),
        ));
    }
    assert(chunk_words(c) =~= block_words(preimage, n));
}

/// Chunk after chunk, the compression computed in the field on binary
/// digits is that of SHA-256.
pub proof fn lemma_absorb(state: Seq<Seq<nat>>, preimage: Seq<u8>, m: nat, n: nat)
    requires
        is_state(state),
        is_bit_string(preimage),
        512 * n <= preimage.len(),
        m > 3,
    ensures
        is_state(absorb(state, encode_words(round_constant_words()), preimage, m, n)),
        words_of(absorb(state, encode_words(round_constant_words()), preimage, m, n))
            == sha_blocks(words_of(state), preimage, n),
    decreases n,
{
    if n > 0 {
        let ks = encode_words(round_constant_words());
        lemma_absorb(state, preimage, m, (n - 1) as nat);
        lemma_chunk_values(preimage, m, n - 1);
        lemma_compress(
            absorb(state, ks, preimage, m, (n - 1) as nat),
            chunk_values(preimage, m, n - 1),
            m,
        );
    }
}

/// On a state of binary digits and a preimage of binary digits, in a
/// field of more than three elements, the hash computed in the field is
/// the chain of SHA-256 compressions over the blocks of the preimage.
pub proof fn lemma_hash_values(state: Seq<Seq<nat>>, preimage: Seq<u8>, m: nat)
    requires
        is_state(state),
        is_bit_string(preimage),
        m > 3,
    ensures
        is_state(hash_values(state, preimage, m)),
        words_of(hash_values(state, preimage, m)) == sha_blocks(
            words_of(state),
            preimage,
            preimage.len() / 512,
        ),
{
    lemma_absorb(state, preimage, m, preimage.len() / 512);
}

/// The initial hash value, written in binary digits, is a state and
/// stands for the eight initial words.
pub proof fn lemma_encode_words(words: Seq<u32>)
    ensures
        all_words(encode_words(words)),
        encode_words(words).len() == words.len(),
        words_of(encode_words(words)) == words,
{
    assert forall|i: int| 0 <= i < words.len() implies is_word(#[trigger] encode_words(words)[i])
        && word_of(encode_words(words)[i]) == words[i] by {
        lemma_word_value_of_word_bits(words[i]);
    }
    assert(words_of(encode_words(words)) =~= words);
}

} // verus!

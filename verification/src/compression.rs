//! The compression core: message schedule, 64 rounds of mixing and the
//! state update, on arrays of field elements.
use crate::algebra_spec::field_add;
use crate::bits::is_bit_string;
use crate::compress_lemmas::{is_state, lemma_chunk_values, lemma_compress};
use crate::compress_spec::{
    absorb, big_sigma0, big_sigma1, chunk_values, choice, compress, hash_values, majority,
    round_step, round_t1, round_t2, rounds, schedule_word, small_sigma0, small_sigma1,
};
use crate::constants::{encode_words, round_constant_words, round_constants};
use crate::error::HashError;
use crate::field::{lemma_values_rotate, values, word_values, FieldElement};
use crate::sha256_spec::{block_words, sha_compress};
use crate::sha_helpers::{
    and, bits_to_field, lift_bits, not, right_shift, rotate_right, wrapping_add, xor,
};
use crate::word_lemmas::words_of;
use vstd::prelude::*;

verus! {

/// The first mixing function of the message schedule:
/// `rotr 7 ^ rotr 18 ^ shr 3`.
pub fn sigma0<F: FieldElement>(w: [F; 32]) -> (r: [F; 32])
    ensures
        values(r@) == small_sigma0(values(w@), F::modulus()),
{
    proof {
        lemma_values_rotate(w@, 7);
        lemma_values_rotate(w@, 18);
    }
    xor(xor(rotate_right(7, w), rotate_right(18, w)), right_shift(3, w))
}

/// The second mixing function of the message schedule:
/// `rotr 17 ^ rotr 19 ^ shr 10`.
pub fn sigma1<F: FieldElement>(w: [F; 32]) -> (r: [F; 32])
    ensures
        values(r@) == small_sigma1(values(w@), F::modulus()),
{
    proof {
        lemma_values_rotate(w@, 17);
        lemma_values_rotate(w@, 19);
    }
    xor(xor(rotate_right(17, w), rotate_right(19, w)), right_shift(10, w))
}

/// The mixing function of the first working variable:
/// `rotr 2 ^ rotr 13 ^ rotr 22`.
pub fn capital_sigma0<F: FieldElement>(a: [F; 32]) -> (r: [F; 32])
    ensures
        values(r@) == big_sigma0(values(a@), F::modulus()),
{
    proof {
        lemma_values_rotate(a@, 2);
        lemma_values_rotate(a@, 13);
        lemma_values_rotate(a@, 22);
    }
    xor(xor(rotate_right(2, a), rotate_right(13, a)), rotate_right(22, a))
}

/// The mixing function of the fifth working variable:
/// `rotr 6 ^ rotr 11 ^ rotr 25`.
pub fn capital_sigma1<F: FieldElement>(e: [F; 32]) -> (r: [F; 32])
    ensures
        values(r@) == big_sigma1(values(e@), F::modulus()),
{
    proof {
        lemma_values_rotate(e@, 6);
        lemma_values_rotate(e@, 11);
        lemma_values_rotate(e@, 25);
    }
    xor(xor(rotate_right(6, e), rotate_right(11, e)), rotate_right(25, e))
}

/// Digit by digit, `f` where `e` is 1 and `g` where `e` is 0.
pub fn choose_bits<F: FieldElement>(e: [F; 32], f: [F; 32], g: [F; 32]) -> (r: [F; 32])
    ensures
        values(r@) == choice(values(e@), values(f@), values(g@), F::modulus()),
{
    xor(and(e, f), and(not(e), g))
}

/// Digit by digit, the value that at least two of the three words have.
pub fn majority_bits<F: FieldElement>(a: [F; 32], b: [F; 32], c: [F; 32]) -> (r: [F; 32])
    ensures
        values(r@) == majority(values(a@), values(b@), values(c@), F::modulus()),
{
    xor(xor(and(a, b), and(a, c)), and(b, c))
}

/// The sixty-four words of the message schedule of a chunk of 512 binary
/// digits. A shorter chunk counts as filled up with zeros, and of a longer
/// one the first 512 digits count.
pub fn message_schedule<F: FieldElement>(bits: &[u8]) -> (w: [[F; 32]; 64])
    ensures
        forall|t: int|
            0 <= t < 64 ==> values((#[trigger] w[t])@) == schedule_word(
                lift_bits(bits@, 512, F::modulus()),
                F::modulus(),
                t,
            ),
{
    let ghost m = F::modulus();
    let ghost chunk = lift_bits(bits@, 512, m);
    let field_values = bits_to_field::<F, 512>(bits);
    let zero = F::zero();
    let blank = [zero;32];
    let mut w = [blank;64];
    let mut i: usize = 0;
    while i < 16
        invariant
            i <= 16,
            m == F::modulus(),
            values(field_values@) == chunk,
            forall|t: int| 0 <= t < i ==> values((#[trigger] w[t])@) == schedule_word(chunk, m, t),
        decreases 16 - i,
    {
        let mut word = blank;
        let mut j: usize = 0;
        while j < 32
            invariant
                j <= 32,
                i < 16,
                forall|k: int| 0 <= k < j ==> #[trigger] word[k] == field_values[32 * i + k],
            decreases 32 - j,
        {
            word[j] = field_values[32 * i + j];
            j += 1;
        }
        proof {
            assert forall|k: int| 0 <= k < 32 implies values(word@)[k] == schedule_word(
                chunk,
                m,
                i as int,
            )[k] by {
                assert(values(field_values@)[32 * i + k] == field_values[32 * i + k].value());
            }
            assert(values(word@) =~= schedule_word(chunk, m, i as int));
        }
        w[i] = word;
        i += 1;
    }
    while i < 64
        invariant
            16 <= i <= 64,
            m == F::modulus(),
            forall|t: int| 0 <= t < i ==> values((#[trigger] w[t])@) == schedule_word(chunk, m, t),
        decreases 64 - i,
    {
        let s0 = sigma0(w[i - 15]);
        let s1 = sigma1(w[i - 2]);
        let next = wrapping_add(wrapping_add(s1, w[i - 7]), wrapping_add(s0, w[i - 16]));
        proof {
            assert(values(s0@) == small_sigma0(schedule_word(chunk, m, i - 15), m));
            assert(values(s1@) == small_sigma1(schedule_word(chunk, m, i - 2), m));
            assert(values(next@) == schedule_word(chunk, m, i as int));
        }
        w[i] = next;
        i += 1;
    }
    w
}

/// One round of mixing: the eight working variables after a round with
/// round constant `k` and schedule word `w`.
pub fn mix_round<F: FieldElement>(v: [[F; 32]; 8], k: [F; 32], w: [F; 32]) -> (r: [[F; 32]; 8])
    ensures
        word_values(r@) == round_step(word_values(v@), values(k@), values(w@), F::modulus()),
{
    let ghost m = F::modulus();
    let ghost vv = word_values(v@);
    let (a, b, c, d, e, f, g, h) = (v[0], v[1], v[2], v[3], v[4], v[5], v[6], v[7]);
    let s1 = capital_sigma1(e);
    let ch = choose_bits(e, f, g);
    let t1 = wrapping_add(wrapping_add(wrapping_add(wrapping_add(h, s1), ch), k), w);
    let s0 = capital_sigma0(a);
    let maj = majority_bits(a, b, c);
    let t2 = wrapping_add(s0, maj);
    let r = [wrapping_add(t1, t2), a, b, c, wrapping_add(d, t1), e, f, g];
    proof {
        assert(values(s1@) == big_sigma1(vv[4], m));
        assert(values(ch@) == choice(vv[4], vv[5], vv[6], m));
        assert(values(t1@) == round_t1(vv, values(k@), values(w@), m));
        assert(values(s0@) == big_sigma0(vv[0], m));
        assert(values(maj@) == majority(vv[0], vv[1], vv[2], m));
        assert(values(t2@) == round_t2(vv, m));
        assert(word_values(r@) =~= round_step(vv, values(k@), values(w@), m));
    }
    r
}

/// Runs the SHA-256 compression on one chunk of 512 binary digits: the
/// message schedule, 64 rounds of mixing, and the addition of the result
/// to the state. A chunk of any other length is refused, and the state is
/// then left as it was.
#[allow(non_snake_case)]
pub fn process_chunk<F: FieldElement>(
    state: &mut [[F; 32]; 8],
    bits: &[u8],
    K: &[[F; 32]; 64],
) -> (r: Result<(), HashError>)
    ensures
        r is Ok <==> bits@.len() == 512,
        r is Ok ==> word_values(final(state)@) == compress(
            word_values(old(state)@),
            word_values(K@),
            lift_bits(bits@, 512, F::modulus()),
            F::modulus(),
        ),
        r is Ok && is_state(word_values(old(state)@)) && is_bit_string(bits@) && word_values(K@)
            == encode_words(round_constant_words()) ==> is_state(word_values(final(state)@))
            && words_of(word_values(final(state)@)) == sha_compress(
            words_of(word_values(old(state)@)),
            block_words(bits@, 0),
        ),
        r is Err ==> r->Err_0 == HashError::ChunkSizeInvariant && *final(state) == *old(state),
{
    if bits.len() != 512 {
        return Err(HashError::ChunkSizeInvariant);
    }
    proof {
        if is_state(word_values(state@)) && is_bit_string(bits@) && word_values(K@)
            == encode_words(round_constant_words()) {
            F::lemma_modulus_large();
            lemma_chunk_values(bits@, F::modulus(), 0);
            assert(bits@.subrange(0, 512) =~= bits@);
            lemma_compress(word_values(state@), lift_bits(bits@, 512, F::modulus()), F::modulus());
        }
    }
    let ghost m = F::modulus();
    let ghost chunk = lift_bits(bits@, 512, m);
    let ghost before = word_values(state@);
    let ghost ks = word_values(K@);
    let w = message_schedule::<F>(bits);
    let mut v = *state;
    let mut i: usize = 0;
    while i < 64
        invariant
            i <= 64,
            m == F::modulus(),
            ks == word_values(K@),
            forall|t: int| 0 <= t < 64 ==> values((#[trigger] w[t])@) == schedule_word(chunk, m, t),
            word_values(v@) == rounds(before, ks, chunk, m, i as nat),
        decreases 64 - i,
    {
        proof {
            assert(ks[i as int] == values(K[i as int]@));
        }
        v = mix_round(v, K[i], w[i]);
        i += 1;
    }
    let mut out = *state;
    let mut j: usize = 0;
    while j < 8
        invariant
            j <= 8,
            m == F::modulus(),
            before == word_values(state@),
            forall|t: int|
                0 <= t < j ==> values((#[trigger] out[t])@) == field_add(
                    word_values(v@)[t],
                    before[t],
                    m,
                ),
        decreases 8 - j,
    {
        out[j] = wrapping_add(v[j], state[j]);
        proof {
            assert(word_values(v@)[j as int] == values(v[j as int]@));
            assert(before[j as int] == values(state[j as int]@));
        }
        j += 1;
    }
    proof {
        assert(word_values(out@) =~= compress(before, ks, chunk, m));
    }
    *state = out;
    Ok(())
}

/// Runs the compression over a padded preimage, one chunk of 512 binary
/// digits after the other, in order. A preimage whose length is not a
/// multiple of 512 is refused, and the state is then left as it was.
pub fn absorb_preimage<F: FieldElement>(state: &mut [[F; 32]; 8], preimage: &[u8]) -> (r: Result<
    (),
    HashError,
>)
    ensures
        r is Ok <==> preimage@.len() % 512 == 0,
        r is Ok ==> word_values(final(state)@) == hash_values(
            word_values(old(state)@),
            preimage@,
            F::modulus(),
        ),
        r is Err ==> r->Err_0 == HashError::AlignmentInvariant && *final(state) == *old(state),
{
    if preimage.len() % 512 != 0 {
        return Err(HashError::AlignmentInvariant);
    }
    let k = round_constants::<F>();
    let count: usize = preimage.len() / 512;
    let ghost m = F::modulus();
    let ghost before = word_values(state@);
    let ghost ks = encode_words(round_constant_words());
    let mut n: usize = 0;
    while n < count
        invariant
            n <= count,
            count == preimage@.len() / 512,
            preimage@.len() % 512 == 0,
            preimage@.len() <= usize::MAX,
            m == F::modulus(),
            word_values(k@) == ks,
            word_values(state@) == absorb(before, ks, preimage@, m, n as nat),
        decreases count - n,
    {
        assert(preimage@.len() == 512 * count);
        let chunk = vstd::slice::slice_subrange(preimage, 512 * n, 512 * n + 512);
        let done = process_chunk(state, chunk, &k);
        assert(done is Ok);
        assert(lift_bits(chunk@, 512, m) == chunk_values(preimage@, m, n as int));
        n += 1;
    }
    Ok(())
}

} // verus!

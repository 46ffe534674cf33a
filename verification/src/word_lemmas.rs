//! Proofs that the operations on sequences of binary digits are the
//! operations of the same name on 32-bit words.
use crate::algebra_spec::{
    bit_and, bit_not, bit_xor, field_add, lemma_field_add_bits, rotate_seq, shift_seq,
};
use crate::bits::{
    all_bits, be_bits, is_bit, lemma_be_bits_of_word_value, lemma_word_value_bound,
    lemma_word_value_of_word_bits, nth_bit, to_nats, word_bits, word_value,
};
use crate::sha256_spec::{add32, rotr};
use vstd::arithmetic::power2::lemma2_to64;
use vstd::prelude::*;

verus! {

/// The 32-bit word that 32 binary digits stand for.
pub open spec fn word_of(s: Seq<nat>) -> u32 {
    word_value(s) as u32
}

/// The 32-bit words that a sequence of words of binary digits stands for.
pub open spec fn words_of(v: Seq<Seq<nat>>) -> Seq<u32> {
    Seq::new(v.len(), |i: int| word_of(v[i]))
}

/// 32 binary digits, as a word of the hash is.
pub open spec fn is_word(s: Seq<nat>) -> bool {
    s.len() == 32 && all_bits(s)
}

/// The binary digit of weight 2^k of a word is what is left of the word
/// after a shift by `k` places and a mask.
pub proof fn lemma_nth_bit_is_shift(x: u32, k: u32)
    requires
        k < 32,
    ensures
        nth_bit(x as nat, k as nat) == (x >> k) & 1,
{
    let y = x >> k;
    vstd::bits::lemma_u32_shr_is_div(x, k);
    assert(y & 1 == y % 2) by (bit_vector);
}

/// The digits of a word are the binary digits of the integer it stands
/// for, which is below 2^32.
pub proof fn lemma_bits_of_word(s: Seq<nat>)
    requires
        is_word(s),
    ensures
        word_value(s) < 0x1_0000_0000,
        forall|i: int| 0 <= i < 32 ==> #[trigger] s[i] == (word_of(s) >> ((31 - i) as u32)) & 1,
{
    lemma_word_value_bound(s);
    lemma2_to64();
    lemma_be_bits_of_word_value(s);
    let v = word_value(s);
    assert forall|i: int| 0 <= i < 32 implies #[trigger] s[i] == (word_of(s) >> ((31 - i) as u32))
        & 1 by {
        assert(s[i] == to_nats(be_bits(v, 32))[i]);
        assert(is_bit(s[i]));
        lemma_nth_bit_is_shift(v as u32, (31 - i) as u32);
    }
}

/// A sequence that holds the binary digits of `x`, most significant first,
/// stands for `x`.
pub proof fn lemma_word_of_bits(x: u32, s: Seq<nat>)
    requires
        s.len() == 32,
        forall|i: int| 0 <= i < 32 ==> #[trigger] s[i] == (x >> ((31 - i) as u32)) & 1,
    ensures
        is_word(s),
        word_of(s) == x,
{
    assert forall|i: int| 0 <= i < 32 implies s[i] == word_bits(x)[i] by {
        let k = (31 - i) as u32;
        lemma_nth_bit_is_shift(x, k);
        let b = (x >> k) & 1;
        assert(b <= 1) by (bit_vector)
            requires
                b == (x >> k) & 1,
        ;
    }
    assert(s =~= word_bits(x));
    lemma_word_value_of_word_bits(x);
}

/// The logical AND of two words of digits stands for the `&` of the words.
pub proof fn lemma_and_word(a: Seq<nat>, b: Seq<nat>)
    requires
        is_word(a),
        is_word(b),
    ensures
        is_word(bit_and(a, b)),
        word_of(bit_and(a, b)) == word_of(a) & word_of(b),
{
    let (x, y) = (word_of(a), word_of(b));
    lemma_bits_of_word(a);
    lemma_bits_of_word(b);
    let c = bit_and(a, b);
    assert forall|i: int| 0 <= i < 32 implies #[trigger] c[i] == ((x & y) >> ((31 - i) as u32))
        & 1 by {
        let k = (31 - i) as u32;
        let (p, q) = ((x >> k) & 1, (y >> k) & 1);
        assert(a[i] == p && b[i] == q);
        assert(((x & y) >> k) & 1 == (if p == 1 && q == 1 { 1u32 } else { 0u32 })) by (bit_vector)
            requires
                k < 32,
                p == (x >> k) & 1,
                q == (y >> k) & 1,
        ;
    }
    lemma_word_of_bits(x & y, c);
}

/// The exclusive OR of two words of digits stands for the `^` of the
/// words.
pub proof fn lemma_xor_word(a: Seq<nat>, b: Seq<nat>)
    requires
        is_word(a),
        is_word(b),
    ensures
        is_word(bit_xor(a, b)),
        word_of(bit_xor(a, b)) == word_of(a) ^ word_of(b),
{
    let (x, y) = (word_of(a), word_of(b));
    lemma_bits_of_word(a);
    lemma_bits_of_word(b);
    let c = bit_xor(a, b);
    assert forall|i: int| 0 <= i < 32 implies #[trigger] c[i] == ((x ^ y) >> ((31 - i) as u32))
        & 1 by {
        let k = (31 - i) as u32;
        let (p, q) = ((x >> k) & 1, (y >> k) & 1);
        assert(a[i] == p && b[i] == q);
        assert(((x ^ y) >> k) & 1 == (if p != q { 1u32 } else { 0u32 })) by (bit_vector)
            requires
                k < 32,
                p == (x >> k) & 1,
                q == (y >> k) & 1,
        ;
    }
    lemma_word_of_bits(x ^ y, c);
}

/// The logical NOT of a word of digits stands for the `!` of the word.
pub proof fn lemma_not_word(a: Seq<nat>)
    requires
        is_word(a),
    ensures
        is_word(bit_not(a)),
        word_of(bit_not(a)) == !word_of(a),
{
    let x = word_of(a);
    lemma_bits_of_word(a);
    let c = bit_not(a);
    assert forall|i: int| 0 <= i < 32 implies #[trigger] c[i] == ((!x) >> ((31 - i) as u32))
        & 1 by {
        let k = (31 - i) as u32;
        let p = (x >> k) & 1;
        assert(a[i] == p);
        assert(((!x) >> k) & 1 == (if p == 1 { 0u32 } else { 1u32 })) by (bit_vector)
            requires
                k < 32,
                p == (x >> k) & 1,
        ;
    }
    lemma_word_of_bits(!x, c);
}

/// Rotating the digits of a word by `r` places towards the higher indices
/// is rotating the word to the right by `r` places.
pub proof fn lemma_rotate_word(a: Seq<nat>, r: nat)
    requires
        is_word(a),
        0 < r < 32,
    ensures
        is_word(rotate_seq(a, r)),
        word_of(rotate_seq(a, r)) == rotr(word_of(a), r as u32),
{
    let x = word_of(a);
    let z = rotr(x, r as u32);
    lemma_bits_of_word(a);
    let c = rotate_seq(a, r);
    assert forall|i: int| 0 <= i < 32 implies #[trigger] c[i] == (z >> ((31 - i) as u32)) & 1 by {
        let k = (31 - i) as u32;
        let n = r as u32;
        let from = (i - r) % 32;
        let kk = (31 - from) as u32;
        assert(c[i] == a[from]);
        assert(a[from] == (x >> kk) & 1);
        assert(kk == (k + n) % 32);
        assert(((((x >> n) | (x << ((32 - n) as u32))) >> k) & 1) == ((x >> kk) & 1))
            by (bit_vector)
            requires
                k < 32,
                0 < n < 32,
                kk == (k + n) % 32,
        ;
    }
    lemma_word_of_bits(z, c);
}

/// Shifting the digits of a word by `s` places towards the higher indices,
/// with zeros entering, is shifting the word to the right by `s` places.
pub proof fn lemma_shift_word(a: Seq<nat>, s: nat)
    requires
        is_word(a),
        s < 32,
    ensures
        is_word(shift_seq(a, s, 0nat)),
        word_of(shift_seq(a, s, 0nat)) == word_of(a) >> (s as u32),
{
    let x = word_of(a);
    let n = s as u32;
    let z = x >> n;
    lemma_bits_of_word(a);
    let c = shift_seq(a, s, 0nat);
    assert forall|i: int| 0 <= i < 32 implies #[trigger] c[i] == (z >> ((31 - i) as u32)) & 1 by {
        let k = (31 - i) as u32;
        if i >= s {
            let kk = (31 - (i - s)) as u32;
            assert(c[i] == a[i - s]);
            assert(a[i - s] == (x >> kk) & 1);
            assert((((x >> n) >> k) & 1) == ((x >> kk) & 1)) by (bit_vector)
                requires
                    k < 32,
                    n < 32,
                    kk == k + n,
                    kk < 32,
            ;
        } else {
            assert((((x >> n) >> k) & 1) == 0) by (bit_vector)
                requires
                    k < 32,
                    n < 32,
                    k + n >= 32,
            ;
        }
    }
    lemma_word_of_bits(z, c);
}

/// In a field of more than three elements, the digit-serial sum of two
/// words of digits stands for the sum of the words modulo 2^32.
pub proof fn lemma_add_word(a: Seq<nat>, b: Seq<nat>, m: nat)
    requires
        is_word(a),
        is_word(b),
        m > 3,
    ensures
        is_word(field_add(a, b, m)),
        word_of(field_add(a, b, m)) == add32(word_of(a), word_of(b)),
{
    lemma_field_add_bits(a, b, m);
    lemma_bits_of_word(a);
    lemma_bits_of_word(b);
    lemma2_to64();
}

} // verus!

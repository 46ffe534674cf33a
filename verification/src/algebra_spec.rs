//! What the bitwise operations and the addition compute, element by element,
//! in a field of `m` elements, and what that means on binary digits.
use crate::bits::{all_bits, is_bit, lemma_word_value_bound, lemma_word_value_first, word_value};
use vstd::arithmetic::div_mod::{lemma_fundamental_div_mod_converse, lemma_small_mod};
use vstd::arithmetic::power2::{lemma_pow2_pos, lemma_pow2_unfold, pow2};
use vstd::prelude::*;

verus! {

/// Element-wise product in a field of `m` elements.
pub open spec fn field_and(a: Seq<nat>, b: Seq<nat>, m: nat) -> Seq<nat> {
    Seq::new(a.len(), |i: int| (((a[i] * b[i]) as int) % (m as int)) as nat)
}

/// Element-wise `1 - a[i]` in a field of `m` elements.
pub open spec fn field_not(a: Seq<nat>, m: nat) -> Seq<nat> {
    Seq::new(a.len(), |i: int| ((1 - a[i]) % (m as int)) as nat)
}

/// Element-wise `a[i] + b[i] - 2 * a[i] * b[i]` in a field of `m` elements.
pub open spec fn field_xor(a: Seq<nat>, b: Seq<nat>, m: nat) -> Seq<nat> {
    Seq::new(a.len(), |i: int| ((a[i] + b[i] - 2 * (a[i] * b[i])) % (m as int)) as nat)
}

/// Cyclic rotation: the entry at index `i` moves to index `(i + rot) mod n`.
pub open spec fn rotate_seq<T>(s: Seq<T>, rot: nat) -> Seq<T> {
    Seq::new(s.len(), |j: int| s[(j - rot) % (s.len() as int)])
}

/// Logical shift towards the higher indices: the entry at index `i` moves
/// to index `i + shift`, and `fill` enters at the low indices.
pub open spec fn shift_seq<T>(s: Seq<T>, shift: nat, fill: T) -> Seq<T> {
    Seq::new(s.len(), |j: int| if j >= shift { s[j - shift] } else { fill })
}

/// The sum of the two digits at index `i` and of the carry that enters
/// there, in a field of `m` elements.
pub open spec fn digit_sum(a: Seq<nat>, b: Seq<nat>, m: nat, i: int) -> nat
    decreases a.len() - i, 1nat,
{
    (((a[i] + b[i] + carry_into(a, b, m, i)) as int) % (m as int)) as nat
}

/// The carry that enters index `i` in the digit-serial addition of `a` and
/// `b`, which starts at the last index with no carry: 1 if the sum at index
/// `i + 1` reached 2, else 0.
pub open spec fn carry_into(a: Seq<nat>, b: Seq<nat>, m: nat, i: int) -> nat
    decreases a.len() - i, 0nat,
{
    if i + 1 >= a.len() {
        0
    } else if i < -1 {
        0
    } else if digit_sum(a, b, m, i + 1) >= 2 {
        1
    } else {
        0
    }
}

/// Digit-serial addition in a field of `m` elements: at each index, from
/// the last to the first, the sum of the two digits and the carry, less 2
/// where it reached 2. The carry out of index 0 is dropped.
pub open spec fn field_add(a: Seq<nat>, b: Seq<nat>, m: nat) -> Seq<nat> {
    Seq::new(
        a.len(),
        |i: int|
            if digit_sum(a, b, m, i) >= 2 {
                (digit_sum(a, b, m, i) - 2) as nat
            } else {
                digit_sum(a, b, m, i)
            },
    )
}

/// Logical AND of two sequences of binary digits.
pub open spec fn bit_and(a: Seq<nat>, b: Seq<nat>) -> Seq<nat> {
    Seq::new(a.len(), |i: int| if a[i] == 1 && b[i] == 1 { 1nat } else { 0nat })
}

/// Logical NOT of a sequence of binary digits.
pub open spec fn bit_not(a: Seq<nat>) -> Seq<nat> {
    Seq::new(a.len(), |i: int| if a[i] == 1 { 0nat } else { 1nat })
}

/// Exclusive OR of two sequences of binary digits.
pub open spec fn bit_xor(a: Seq<nat>, b: Seq<nat>) -> Seq<nat> {
    Seq::new(a.len(), |i: int| if a[i] != b[i] { 1nat } else { 0nat })
}

/// On binary digits the field product is the logical AND.
pub proof fn lemma_field_and_bits(a: Seq<nat>, b: Seq<nat>, m: nat)
    requires
        a.len() == b.len(),
        all_bits(a),
        all_bits(b),
        m > 1,
    ensures
        field_and(a, b, m) == bit_and(a, b),
        all_bits(field_and(a, b, m)),
{
    assert forall|i: int| 0 <= i < a.len() implies field_and(a, b, m)[i] == bit_and(a, b)[i] by {
        assert(is_bit(a[i]) && is_bit(b[i]));
        assert(a[i] * b[i] == bit_and(a, b)[i]) by (nonlinear_arith)
            requires
                is_bit(a[i]),
                is_bit(b[i]),
                bit_and(a, b)[i] == (if a[i] == 1 && b[i] == 1 { 1nat } else { 0nat }),
        ;
        lemma_small_mod(a[i] * b[i], m);
    }
    assert(field_and(a, b, m) =~= bit_and(a, b));
}

/// On binary digits `1 - a` in the field is the logical NOT.
pub proof fn lemma_field_not_bits(a: Seq<nat>, m: nat)
    requires
        all_bits(a),
        m > 1,
    ensures
        field_not(a, m) == bit_not(a),
        all_bits(field_not(a, m)),
{
    assert forall|i: int| 0 <= i < a.len() implies field_not(a, m)[i] == bit_not(a)[i] by {
        assert(is_bit(a[i]));
        lemma_small_mod((1 - a[i]) as nat, m);
    }
    assert(field_not(a, m) =~= bit_not(a));
}

/// On binary digits `a + b - 2ab` in the field is the exclusive OR.
pub proof fn lemma_field_xor_bits(a: Seq<nat>, b: Seq<nat>, m: nat)
    requires
        a.len() == b.len(),
        all_bits(a),
        all_bits(b),
        m > 1,
    ensures
        field_xor(a, b, m) == bit_xor(a, b),
        all_bits(field_xor(a, b, m)),
{
    assert forall|i: int| 0 <= i < a.len() implies field_xor(a, b, m)[i] == bit_xor(a, b)[i] by {
        assert(is_bit(a[i]) && is_bit(b[i]));
        let x = a[i] + b[i] - 2 * (a[i] * b[i]);
        assert(x == bit_xor(a, b)[i]) by (nonlinear_arith)
            requires
                is_bit(a[i]),
                is_bit(b[i]),
                x == a[i] + b[i] - 2 * (a[i] * b[i]),
                bit_xor(a, b)[i] == (if a[i] != b[i] { 1nat } else { 0nat }),
        ;
        lemma_small_mod(x as nat, m);
    }
    assert(field_xor(a, b, m) =~= bit_xor(a, b));
}

/// On binary digits, in a field of more than three elements, no digit sum
/// wraps: it is the plain sum of two digits and a carry.
pub proof fn lemma_digit_sum_bits(a: Seq<nat>, b: Seq<nat>, m: nat, i: int)
    requires
        a.len() == b.len(),
        all_bits(a),
        all_bits(b),
        m > 3,
        0 <= i < a.len(),
    ensures
        digit_sum(a, b, m, i) == a[i] + b[i] + carry_into(a, b, m, i),
        digit_sum(a, b, m, i) <= 3,
        is_bit(carry_into(a, b, m, i)),
{
    assert(is_bit(a[i]) && is_bit(b[i]));
    lemma_small_mod(a[i] + b[i] + carry_into(a, b, m, i), m);
}

/// The digits of `field_add` from index `i` on, together with the carry
/// that leaves index `i`, stand for the sum of the digits of `a` and of `b`
/// from index `i` on.
proof fn lemma_field_add_suffix(a: Seq<nat>, b: Seq<nat>, m: nat, i: int)
    requires
        a.len() == b.len(),
        all_bits(a),
        all_bits(b),
        m > 3,
        0 <= i <= a.len(),
    ensures
        all_bits(field_add(a, b, m)),
        word_value(field_add(a, b, m).skip(i)) + carry_into(a, b, m, i - 1) * pow2(
            (a.len() - i) as nat,
        ) == word_value(a.skip(i)) + word_value(b.skip(i)),
    decreases a.len() - i,
{
    let r = field_add(a, b, m);
    assert forall|j: int| 0 <= j < r.len() implies is_bit(#[trigger] r[j]) by {
        lemma_digit_sum_bits(a, b, m, j);
    }
    if i == a.len() {
        assert(r.skip(i).len() == 0);
        assert(a.skip(i).len() == 0);
        assert(b.skip(i).len() == 0);
        assert(carry_into(a, b, m, i - 1) == 0);
        assert(0 * pow2((a.len() - i) as nat) == 0);
    } else {
        lemma_field_add_suffix(a, b, m, i + 1);
        lemma_digit_sum_bits(a, b, m, i);
        let p = pow2((a.len() - i - 1) as nat);
        let s = digit_sum(a, b, m, i);
        let c_in = carry_into(a, b, m, i);
        let c_out = carry_into(a, b, m, i - 1);
        let (r0, r1) = (word_value(r.skip(i)), word_value(r.skip(i + 1)));
        let (a0, a1) = (word_value(a.skip(i)), word_value(a.skip(i + 1)));
        let (b0, b1) = (word_value(b.skip(i)), word_value(b.skip(i + 1)));
        assert(r0 == r[i] * p + r1) by {
            lemma_word_value_first(r.skip(i));
            assert(r.skip(i).skip(1) =~= r.skip(i + 1));
        }
        assert(a0 == a[i] * p + a1) by {
            lemma_word_value_first(a.skip(i));
            assert(a.skip(i).skip(1) =~= a.skip(i + 1));
        }
        assert(b0 == b[i] * p + b1) by {
            lemma_word_value_first(b.skip(i));
            assert(b.skip(i).skip(1) =~= b.skip(i + 1));
        }
        assert(pow2((a.len() - i) as nat) == 2 * p) by {
            lemma_pow2_unfold((a.len() - i) as nat);
        }
        assert(c_out == (if s >= 2 { 1nat } else { 0nat }));
        assert(r[i] == s - 2 * c_out);
        assert(r1 + c_in * p == a1 + b1);
        assert(r0 + c_out * (2 * p) == a0 + b0) by (nonlinear_arith)
            requires
                r0 == r[i] * p + r1,
                a0 == a[i] * p + a1,
                b0 == b[i] * p + b1,
                r1 + c_in * p == a1 + b1,
                r[i] == s - 2 * c_out,
                s == a[i] + b[i] + c_in,
        ;
        assert(c_out * pow2((a.len() - i) as nat) == c_out * (2 * p));
    }
}

/// On binary digits, in a field of more than three elements, the
/// digit-serial addition is addition modulo two to the power of the length.
pub proof fn lemma_field_add_bits(a: Seq<nat>, b: Seq<nat>, m: nat)
    requires
        a.len() == b.len(),
        all_bits(a),
        all_bits(b),
        m > 3,
    ensures
        all_bits(field_add(a, b, m)),
        word_value(field_add(a, b, m)) == (word_value(a) + word_value(b)) % pow2(a.len()),
{
    let r = field_add(a, b, m);
    lemma_field_add_suffix(a, b, m, 0);
    assert(r.skip(0) =~= r);
    assert(a.skip(0) =~= a);
    assert(b.skip(0) =~= b);
    lemma_word_value_bound(r);
    lemma_pow2_pos(a.len());
    let c = carry_into(a, b, m, -1);
    let p = pow2(a.len());
    assert(word_value(a) + word_value(b) == c * p + word_value(r));
    assert(c * p == p * c) by (nonlinear_arith);
    lemma_fundamental_div_mod_converse(
        (word_value(a) + word_value(b)) as int,
        p as int,
        c as int,
        word_value(r) as int,
    );
}

} // verus!

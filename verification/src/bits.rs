//! Binary digits, the integers that sequences of them stand for, and the
//! digits of an integer.
use vstd::arithmetic::div_mod::{
    lemma_div_denominator, lemma_fundamental_div_mod_converse, lemma_mod_breakdown,
};
use vstd::arithmetic::power2::{lemma2_to64, lemma_pow2_pos, lemma_pow2_unfold, pow2};
use vstd::prelude::*;

verus! {

/// A binary digit: 0 or 1.
pub open spec fn is_bit(v: nat) -> bool {
    v == 0 || v == 1
}

/// Every entry of the sequence is a binary digit.
pub open spec fn all_bits(s: Seq<nat>) -> bool {
    forall|i: int| 0 <= i < s.len() ==> is_bit(#[trigger] s[i])
}

/// Every word of the sequence has 32 entries, all of them binary digits.
pub open spec fn all_words(s: Seq<Seq<nat>>) -> bool {
    forall|i: int| 0 <= i < s.len() ==> (#[trigger] s[i]).len() == 32 && all_bits(s[i])
}

/// The unsigned integer that a sequence of digits stands for, most
/// significant digit first.
pub open spec fn word_value(s: Seq<nat>) -> nat
    decreases s.len(),
{
    if s.len() == 0 {
        0
    } else {
        2 * word_value(s.drop_last()) + s.last()
    }
}

/// A sequence of binary digits stands for an integer below two to the
/// power of its length.
pub proof fn lemma_word_value_bound(s: Seq<nat>)
    requires
        all_bits(s),
    ensures
        word_value(s) < pow2(s.len()),
    decreases s.len(),
{
    if s.len() == 0 {
        assert(pow2(0) == 1) by {
            vstd::arithmetic::power2::lemma2_to64();
        }
    } else {
        let t = s.drop_last();
        assert(all_bits(t)) by {
            assert forall|i: int| 0 <= i < t.len() implies is_bit(#[trigger] t[i]) by {
                assert(t[i] == s[i]);
            }
        }
        lemma_word_value_bound(t);
        lemma_pow2_unfold(s.len());
        assert(is_bit(s[s.len() - 1]));
    }
}

/// The value of a sequence is its first digit, weighted by its position,
/// plus the value of the rest.
pub proof fn lemma_word_value_first(s: Seq<nat>)
    requires
        s.len() > 0,
    ensures
        word_value(s) == s[0] * pow2((s.len() - 1) as nat) + word_value(s.skip(1)),
    decreases s.len(),
{
    if s.len() == 1 {
        assert(s.drop_last().len() == 0);
        assert(s.skip(1).len() == 0);
        assert(pow2(0) == 1) by {
            vstd::arithmetic::power2::lemma2_to64();
        }
        assert(word_value(s.drop_last()) == 0);
        assert(word_value(s.skip(1)) == 0);
    } else {
        let t = s.drop_last();
        lemma_word_value_first(t);
        assert(t.skip(1) =~= s.skip(1).drop_last());
        assert(s.skip(1).last() == s.last());
        assert(t[0] == s[0]);
        lemma_pow2_unfold((s.len() - 1) as nat);
        let p = pow2((s.len() - 2) as nat);
        assert(2 * (s[0] * p) == s[0] * (2 * p)) by (nonlinear_arith);
    }
}

/// The binary digit of `x` that has weight two to the power of `k`.
pub open spec fn nth_bit(x: nat, k: nat) -> nat {
    (x / pow2(k)) % 2
}

/// The `width` low binary digits of `n`, most significant first.
pub open spec fn be_bits(n: nat, width: nat) -> Seq<u8> {
    Seq::new(width, |i: int| nth_bit(n, (width - 1 - i) as nat) as u8)
}

/// A sequence of bytes, seen as a sequence of natural numbers.
pub open spec fn to_nats(s: Seq<u8>) -> Seq<nat> {
    Seq::new(s.len(), |i: int| s[i] as nat)
}

/// The 32 binary digits of a word, most significant first.
pub open spec fn word_bits(x: u32) -> Seq<nat> {
    to_nats(be_bits(x as nat, 32))
}

/// Every entry of the byte sequence is 0 or 1.
pub open spec fn is_bit_string(s: Seq<u8>) -> bool {
    forall|i: int| 0 <= i < s.len() ==> #[trigger] s[i] <= 1
}

/// The digits that `be_bits` gives are binary digits.
pub proof fn lemma_be_bits_are_bits(n: nat, width: nat)
    ensures
        is_bit_string(be_bits(n, width)),
        all_bits(to_nats(be_bits(n, width))),
        be_bits(n, width).len() == width,
{
}

/// Dropping the last of the `width` low digits of `n` leaves the
/// `width - 1` low digits of `n / 2`.
proof fn lemma_be_bits_drop_last(n: nat, width: nat)
    requires
        width > 0,
    ensures
        be_bits(n, width).drop_last() == be_bits(n / 2, (width - 1) as nat),
        be_bits(n, width).last() == n % 2,
{
    let s = be_bits(n, width).drop_last();
    let t = be_bits(n / 2, (width - 1) as nat);
    assert forall|i: int| 0 <= i < width - 1 implies s[i] == t[i] by {
        let k = (width - 2 - i) as nat;
        lemma_pow2_unfold(k + 1);
        lemma_pow2_pos(k);
        lemma_div_denominator(n as int, 2, pow2(k) as int);
        assert(n / pow2(k + 1) == (n / 2) / pow2(k));
    }
    assert(s =~= t);
    assert(pow2(0) == 1) by {
        lemma2_to64();
    }
}

/// The `width` low binary digits of `n` stand for `n` modulo two to the
/// power of `width`.
pub proof fn lemma_word_value_of_be_bits(n: nat, width: nat)
    ensures
        word_value(to_nats(be_bits(n, width))) == n % pow2(width),
    decreases width,
{
    let s = to_nats(be_bits(n, width));
    if width == 0 {
        assert(pow2(0) == 1) by {
            lemma2_to64();
        }
    } else {
        let w1 = (width - 1) as nat;
        lemma_be_bits_drop_last(n, width);
        assert(s.drop_last() =~= to_nats(be_bits(n / 2, w1)));
        assert(s.last() == n % 2);
        lemma_word_value_of_be_bits(n / 2, w1);
        lemma_pow2_unfold(width);
        lemma_pow2_pos(w1);
        lemma_mod_breakdown(n as int, 2, pow2(w1) as int);
    }
}

/// Taking the binary digits of the integer that a sequence of binary
/// digits stands for gives the sequence back.
pub proof fn lemma_be_bits_of_word_value(s: Seq<nat>)
    requires
        all_bits(s),
    ensures
        to_nats(be_bits(word_value(s), s.len())) == s,
    decreases s.len(),
{
    let v = word_value(s);
    let t = to_nats(be_bits(v, s.len()));
    if s.len() > 0 {
        let d = s.drop_last();
        assert(all_bits(d)) by {
            assert forall|i: int| 0 <= i < d.len() implies is_bit(#[trigger] d[i]) by {
                assert(d[i] == s[i]);
            }
        }
        assert(is_bit(s[s.len() - 1]));
        lemma_fundamental_div_mod_converse(
            v as int,
            2,
            word_value(d) as int,
            s.last() as int,
        );
        lemma_be_bits_drop_last(v, s.len());
        lemma_be_bits_of_word_value(d);
        assert(t.drop_last() =~= to_nats(be_bits(v / 2, d.len())));
        assert forall|i: int| 0 <= i < s.len() implies t[i] == s[i] by {
            if i < s.len() - 1 {
                assert(t.drop_last()[i] == t[i]);
                assert(d[i] == s[i]);
            } else {
                assert(t[i] == t.last());
            }
        }
    }
    assert(t =~= s);
}

/// A word is the integer that its 32 binary digits stand for.
pub proof fn lemma_word_value_of_word_bits(x: u32)
    ensures
        word_value(word_bits(x)) == x,
        all_bits(word_bits(x)),
        word_bits(x).len() == 32,
{
    lemma_word_value_of_be_bits(x as nat, 32);
    lemma2_to64();
    vstd::arithmetic::div_mod::lemma_small_mod(x as nat, pow2(32));
}

} // verus!

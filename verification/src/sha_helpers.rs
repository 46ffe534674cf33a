//! Conversions between text, binary digits, field elements and words; the
//! padding; and the bitwise operations and the addition on arrays of field
//! elements.
use crate::algebra_spec::{
    bit_and, bit_not, bit_xor, carry_into, digit_sum, field_add, field_and, field_not, field_xor,
    lemma_field_add_bits, lemma_field_and_bits, lemma_field_not_bits, lemma_field_xor_bits,
    rotate_seq, shift_seq,
};
use crate::bits::{all_bits, be_bits, is_bit_string, lemma_be_bits_are_bits, word_value};
use crate::error::HashError;
use crate::field::{values, FieldElement};
use crate::padding_spec::{
    digest_index, lemma_padding_layout, minimal_padded_len, pad_spec, zeros,
};
use vstd::arithmetic::div_mod::{
    lemma_add_mod_noop, lemma_fundamental_div_mod, lemma_mod_multiples_vanish,
    lemma_mul_mod_noop_general, lemma_small_mod, lemma_sub_mod_noop,
};
use vstd::arithmetic::power2::{lemma2_to64, lemma_pow2_strictly_increases, pow2};
use vstd::prelude::*;
use vstd::string::StringSliceAdditionalSpecFns;

verus! {

/// The error that `hex::decode` reports.
#[verifier::external_type_specification]
#[verifier::external_body]
pub struct ExFromHexError(hex::FromHexError);

/// An ASCII hexadecimal digit, of either case.
pub open spec fn is_hex_digit(c: u8) -> bool {
    (0x30 <= c <= 0x39) || (0x41 <= c <= 0x46) || (0x61 <= c <= 0x66)
}

/// The number from 0 to 15 that a hexadecimal digit stands for.
pub open spec fn hex_digit_value(c: u8) -> nat {
    if 0x30 <= c <= 0x39 {
        (c - 0x30) as nat
    } else if 0x41 <= c <= 0x46 {
        (c - 0x41 + 10) as nat
    } else {
        (c - 0x61 + 10) as nat
    }
}

/// The text is made of hexadecimal digits, an even number of them.
pub open spec fn is_hex_string(text: Seq<u8>) -> bool {
    text.len() % 2 == 0 && forall|i: int| 0 <= i < text.len() ==> is_hex_digit(#[trigger] text[i])
}

/// The bytes that a hexadecimal text stands for, two digits to a byte, the
/// high digit first.
pub open spec fn hex_bytes(text: Seq<u8>) -> Seq<u8> {
    Seq::new(
        text.len() / 2,
        |i: int| (16 * hex_digit_value(text[2 * i]) + hex_digit_value(text[2 * i + 1])) as u8,
    )
}

/// The binary digits of a sequence of bytes, eight to a byte, the most
/// significant first.
pub open spec fn bytes_to_bits(bytes: Seq<u8>) -> Seq<u8> {
    Seq::new(8 * bytes.len(), |j: int| be_bits(bytes[j / 8] as nat, 8)[j % 8])
}

/// The field elements that an array of `n` elements takes from a sequence
/// of small integers: each integer reduced into a field of `m` elements,
/// and zero beyond the end of the sequence.
pub open spec fn lift_bits(bits: Seq<u8>, n: nat, m: nat) -> Seq<nat> {
    Seq::new(
        n,
        |i: int|
            if i < bits.len() {
                ((bits[i] as int) % (m as int)) as nat
            } else {
                0nat
            },
    )
}

/// `hex::decode`: succeeds exactly on an even number of hexadecimal digits,
/// upper or lower case, and then gives one byte for each pair of digits,
/// the first digit of a pair being the high half of the byte.
#[verifier::external_body]
fn hex_decode(text: &str) -> (r: Result<Vec<u8>, hex::FromHexError>)
    ensures
        r is Ok <==> is_hex_string(text.spec_bytes()),
        r is Ok ==> r->Ok_0@ == hex_bytes(text.spec_bytes()),
{
    hex::decode(text)
}

/// The binary digits of a sequence of bytes, eight to a byte, the most
/// significant first.
pub fn from_bytes(bytes: &[u8]) -> (bits: Vec<u8>)
    ensures
        bits@ == bytes_to_bits(bytes@),
        is_bit_string(bits@),
{
    let mut bits: Vec<u8> = Vec::new();
    let mut n: usize = 0;
    while n < bytes.len()
        invariant
            n <= bytes.len(),
            bits@ == bytes_to_bits(bytes@.take(n as int)),
        decreases bytes.len() - n,
    {
        let digits = to_bits_be::<8>(bytes[n] as u64);
        let mut k: usize = 0;
        while k < 8
            invariant
                k <= 8,
                n < bytes.len(),
                digits@ == be_bits(bytes[n as int] as nat, 8),
                bits@ == bytes_to_bits(bytes@.take(n as int)) + digits@.take(k as int),
            decreases 8 - k,
        {
            bits.push(digits[k]);
            proof {
                assert(digits@.take(k + 1) =~= digits@.take(k as int).push(digits[k as int]));
            }
            k += 1;
        }
        proof {
            assert(digits@.take(8) =~= digits@);
            assert(bytes_to_bits(bytes@.take(n as int)) + digits@ =~= bytes_to_bits(
                bytes@.take(n + 1),
            ));
        }
        n += 1;
    }
    proof {
        assert(bytes@.take(bytes.len() as int) =~= bytes@);
        assert forall|j: int| 0 <= j < bits.len() implies #[trigger] bits[j] <= 1 by {
            lemma_be_bits_are_bits(bytes[j / 8] as nat, 8);
        }
    }
    bits
}

/// Decodes a hexadecimal string into its binary digits, eight to a byte,
/// most significant first. A string that is not an even number of
/// hexadecimal digits is refused.
pub fn from_hex(hex: &str) -> (r: Result<Vec<u8>, HashError>)
    ensures
        r is Ok <==> is_hex_string(hex.spec_bytes()),
        r is Ok ==> r->Ok_0@ == bytes_to_bits(hex_bytes(hex.spec_bytes())),
        r is Ok ==> is_bit_string(r->Ok_0@),
        r is Err ==> r->Err_0 == HashError::DecodeError,
{
    match hex_decode(hex) {
        Ok(bytes) => Ok(from_bytes(bytes.as_slice())),
        Err(_) => Err(HashError::DecodeError),
    }
}

/// Encodes an integer as `N` binary digits, most significant first. Digits
/// of the integer beyond the `N` lowest are dropped.
pub fn to_bits_be<const N: usize>(num: u64) -> (r: [u8; N])
    ensures
        r@ == be_bits(num as nat, N as nat),
{
    let zero: u8 = 0;
    let mut out = [zero;N];
    let mut i: usize = 0;
    while i < N
        invariant
            i <= N,
            forall|j: int| 0 <= j < i ==> #[trigger] out[j] == be_bits(num as nat, N as nat)[j],
        decreases N - i,
    {
        let shift: usize = N - 1 - i;
        if shift < 64 {
            let digit: u64 = (num >> shift) & 1;
            proof {
                let y = num >> shift;
                vstd::bits::lemma_u64_shr_is_div(num, shift as u64);
                assert(y & 1 == y % 2) by (bit_vector);
            }
            out[i] = digit as u8;
        } else {
            proof {
                lemma2_to64();
                if shift > 64 {
                    lemma_pow2_strictly_increases(64, shift as nat);
                }
                vstd::arithmetic::div_mod::lemma_basic_div(num as int, pow2(shift as nat) as int);
            }
            out[i] = 0;
        }
        i += 1;
    }
    assert(out@ =~= be_bits(num as nat, N as nat));
    out
}

/// Lifts binary digits into the field: the first `N` become field
/// elements, and where there are fewer the rest of the array is zero.
pub fn bits_to_field<F: FieldElement, const N: usize>(bits: &[u8]) -> (r: [F; N])
    ensures
        values(r@) == lift_bits(bits@, N as nat, F::modulus()),
        is_bit_string(bits@) ==> all_bits(values(r@)),
{
    let zero = F::zero();
    let mut arr = [zero;N];
    let mut i: usize = 0;
    while i < N
        invariant
            i <= N,
            zero.value() == 0,
            forall|j: int| 0 <= j < i ==> (#[trigger] arr[j]).value() == lift_bits(bits@, N as nat, F::modulus())[j],
        decreases N - i,
    {
        if i < bits.len() {
            arr[i] = F::from_u8(bits[i]);
        } else {
            arr[i] = zero;
        }
        i += 1;
    }
    proof {
        assert(values(arr@) =~= lift_bits(bits@, N as nat, F::modulus()));
        if is_bit_string(bits@) {
            F::lemma_modulus_large();
            assert forall|j: int| 0 <= j < N implies crate::bits::is_bit(#[trigger] values(arr@)[j]) by {
                if j < bits@.len() {
                    assert(bits@[j] <= 1);
                    lemma_small_mod(bits@[j] as nat, F::modulus());
                }
            }
        }
    }
    arr
}

/// Pads a message of binary digits as SHA-256 asks, and on to `max_bits`
/// digits with zeros. Returns the padded message and the offset at which
/// its 64-digit length field begins. The capacity is refused if it cannot
/// hold the minimally padded message.
pub fn sha256_pad(input_bits: Vec<u8>, max_bits: usize) -> (r: Result<(Vec<u8>, usize), HashError>)
    ensures
        r is Ok <==> minimal_padded_len(input_bits@.len()) <= max_bits,
        r is Ok ==> r->Ok_0.0@ == pad_spec(input_bits@, max_bits as nat),
        r is Ok ==> r->Ok_0.1 == digest_index(input_bits@.len()),
        r is Ok ==> r->Ok_0.0@.len() == max_bits,
        r is Ok && is_bit_string(input_bits@) ==> is_bit_string(r->Ok_0.0@),
        r is Err ==> r->Err_0 == HashError::CapacityError,
{
    let bit_length = input_bits.len();
    proof {
        if minimal_padded_len(input_bits@.len()) <= max_bits {
            lemma_padding_layout(input_bits@, max_bits as nat);
        }
    }
    if bit_length > max_bits || max_bits - bit_length < 65 {
        return Err(HashError::CapacityError);
    }
    let pre_pad_len: usize = (bit_length + 64) / 512 * 512;
    if max_bits - pre_pad_len < 512 {
        return Err(HashError::CapacityError);
    }
    let pre_pad_len: usize = pre_pad_len + 512;
    let output_hash_index: usize = pre_pad_len - 64;
    let ghost bits = input_bits@;
    let mut padded = input_bits;
    padded.push(1);
    while padded.len() < output_hash_index
        invariant
            bit_length < padded.len() <= output_hash_index,
            padded@ == bits + seq![1u8] + zeros((padded.len() - bit_length - 1) as nat),
        decreases output_hash_index - padded.len(),
    {
        padded.push(0);
        proof {
            let n = (padded.len() - bit_length - 1) as nat;
            assert(zeros(n) =~= zeros((n - 1) as nat).push(0u8));
            assert(padded@ =~= bits + seq![1u8] + zeros(n));
        }
    }
    let length_field = to_bits_be::<64>(bit_length as u64);
    let mut k: usize = 0;
    while k < 64
        invariant
            k <= 64,
            bit_length + 65 <= pre_pad_len <= max_bits,
            output_hash_index == pre_pad_len - 64,
            length_field@ == be_bits(bit_length as nat, 64),
            padded@ == bits + seq![1u8] + zeros((output_hash_index - bit_length - 1) as nat)
                + length_field@.take(k as int),
        decreases 64 - k,
    {
        padded.push(length_field[k]);
        proof {
            assert(length_field@.take(k + 1) =~= length_field@.take(k as int).push(
                length_field[k as int],
            ));
        }
        k += 1;
    }
    proof {
        assert(length_field@.take(64) =~= length_field@);
    }
    while padded.len() < max_bits
        invariant
            pre_pad_len <= padded.len() <= max_bits,
            padded@ == bits + seq![1u8] + zeros((output_hash_index - bit_length - 1) as nat)
                + length_field@ + zeros((padded.len() - pre_pad_len) as nat),
        decreases max_bits - padded.len(),
    {
        padded.push(0);
        proof {
            let n = (padded.len() - pre_pad_len) as nat;
            assert(zeros(n) =~= zeros((n - 1) as nat).push(0u8));
        }
    }
    Ok((padded, output_hash_index))
}

/// Element-wise AND: the product of the two elements at each index.
pub fn and<F: FieldElement, const N: usize>(a: [F; N], b: [F; N]) -> (r: [F; N])
    ensures
        values(r@) == field_and(values(a@), values(b@), F::modulus()),
        all_bits(values(a@)) && all_bits(values(b@)) ==> values(r@) == bit_and(
            values(a@),
            values(b@),
        ),
{
    let mut out = a;
    let mut i: usize = 0;
    while i < N
        invariant
            i <= N,
            forall|j: int|
                0 <= j < i ==> (#[trigger] out[j]).value() == (a[j].value() * b[j].value())
                    % F::modulus(),
        decreases N - i,
    {
        out[i] = a[i].times(b[i]);
        i += 1;
    }
    proof {
        assert(values(out@) =~= field_and(values(a@), values(b@), F::modulus()));
        if all_bits(values(a@)) && all_bits(values(b@)) {
            F::lemma_modulus_large();
            lemma_field_and_bits(values(a@), values(b@), F::modulus());
        }
    }
    out
}

/// Element-wise NOT: one minus the element at each index.
pub fn not<F: FieldElement, const N: usize>(a: [F; N]) -> (r: [F; N])
    ensures
        values(r@) == field_not(values(a@), F::modulus()),
        all_bits(values(a@)) ==> values(r@) == bit_not(values(a@)),
{
    let one = F::one();
    let mut out = a;
    let mut i: usize = 0;
    while i < N
        invariant
            i <= N,
            one.value() == 1,
            forall|j: int|
                0 <= j < i ==> (#[trigger] out[j]).value() == (1 - a[j].value()) % (
                F::modulus() as int),
        decreases N - i,
    {
        out[i] = one.minus(a[i]);
        i += 1;
    }
    proof {
        assert(values(out@) =~= field_not(values(a@), F::modulus()));
        if all_bits(values(a@)) {
            F::lemma_modulus_large();
            lemma_field_not_bits(values(a@), F::modulus());
        }
    }
    out
}

/// Element-wise XOR: `a + b - 2ab` at each index.
pub fn xor<F: FieldElement, const N: usize>(a: [F; N], b: [F; N]) -> (r: [F; N])
    ensures
        values(r@) == field_xor(values(a@), values(b@), F::modulus()),
        all_bits(values(a@)) && all_bits(values(b@)) ==> values(r@) == bit_xor(
            values(a@),
            values(b@),
        ),
{
    let and_ab = and(a, b);
    let two = F::from_u8(2);
    let ghost m = F::modulus() as int;
    let mut out = a;
    let mut i: usize = 0;
    while i < N
        invariant
            i <= N,
            m == F::modulus(),
            two.value() == 2nat % F::modulus(),
            values(and_ab@) == field_and(values(a@), values(b@), F::modulus()),
            forall|j: int|
                0 <= j < i ==> (#[trigger] out[j]).value() == (a[j].value() + b[j].value() - 2 * (
                a[j].value() * b[j].value())) % m,
        decreases N - i,
    {
        let doubled = two.times(and_ab[i]);
        out[i] = a[i].plus(b[i]).minus(doubled);
        proof {
            F::lemma_modulus_large();
            let x = a[i as int].value() as int;
            let y = b[i as int].value() as int;
            assert(and_ab[i as int].value() == values(and_ab@)[i as int]);
            assert(and_ab[i as int].value() == (x * y) % m);
            lemma_mul_mod_noop_general(2, x * y, m);
            lemma_sub_mod_noop(x + y, 2 * (x * y), m);
        }
        i += 1;
    }
    proof {
        assert(values(out@) =~= field_xor(values(a@), values(b@), F::modulus()));
        if all_bits(values(a@)) && all_bits(values(b@)) {
            F::lemma_modulus_large();
            lemma_field_xor_bits(values(a@), values(b@), F::modulus());
        }
    }
    out
}

/// Cyclic rotation: the element at index `i` moves to index
/// `(i + rot) mod N`.
pub fn rotate_right<F: FieldElement, const N: usize>(rot: usize, word: [F; N]) -> (r: [F; N])
    ensures
        r@ == rotate_seq(word@, rot as nat),
{
    if N == 0 {
        assert(word@ =~= rotate_seq(word@, rot as nat));
        return word;
    }
    let by: usize = rot % N;
    let mut out = word;
    let mut j: usize = 0;
    while j < N
        invariant
            j <= N,
            N > 0,
            by == rot % N,
            forall|k: int| 0 <= k < j ==> #[trigger] out[k] == word[(k - rot) % (N as int)],
        decreases N - j,
    {
        let from: usize = if j >= by {
            j - by
        } else {
            j + (N - by)
        };
        proof {
            let n = N as int;
            let q = (rot as int) / n;
            lemma_fundamental_div_mod(rot as int, n);
            assert(rot as int == n * q + by);
            if j >= by {
                assert(j - rot == n * (-q) + (j - by)) by (nonlinear_arith)
                    requires
                        rot as int == n * q + by,
                ;
                lemma_mod_multiples_vanish(-q, j - by, n);
            } else {
                assert(j - rot == n * (-q - 1) + (j + n - by)) by (nonlinear_arith)
                    requires
                        rot as int == n * q + by,
                ;
                lemma_mod_multiples_vanish(-q - 1, j + n - by, n);
            }
            lemma_small_mod(from as nat, N as nat);
            assert((j - rot) % n == from);
        }
        out[j] = word[from];
        j += 1;
    }
    assert(out@ =~= rotate_seq(word@, rot as nat));
    out
}

/// Logical shift towards the higher indices: the element at index `i` moves
/// to index `i + shift`, and zero enters at the low indices.
pub fn right_shift<F: FieldElement, const N: usize>(shift: usize, word: [F; N]) -> (r: [F; N])
    ensures
        values(r@) == shift_seq(values(word@), shift as nat, 0nat),
        forall|j: int| shift <= j < N ==> r[j] == word[j - shift],
{
    let zero = F::zero();
    let mut out = word;
    let mut j: usize = 0;
    while j < N
        invariant
            j <= N,
            zero.value() == 0,
            forall|k: int| 0 <= k < j && k < shift ==> (#[trigger] out[k]).value() == 0,
            forall|k: int| shift <= k < j ==> #[trigger] out[k] == word[k - shift],
        decreases N - j,
    {
        if j >= shift {
            out[j] = word[j - shift];
        } else {
            out[j] = zero;
        }
        j += 1;
    }
    assert(values(out@) =~= shift_seq(values(word@), shift as nat, 0nat));
    out
}

/// Addition modulo 2^32 of two words, digit by digit from the last index to
/// the first with a single carry. The carry out of index 0 is dropped.
pub fn wrapping_add<F: FieldElement>(a: [F; 32], b: [F; 32]) -> (r: [F; 32])
    ensures
        values(r@) == field_add(values(a@), values(b@), F::modulus()),
        all_bits(values(a@)) && all_bits(values(b@)) ==> all_bits(values(r@)) && word_value(
            values(r@),
        ) == (word_value(values(a@)) + word_value(values(b@))) % 0x1_0000_0000,
{
    let zero = F::zero();
    let one = F::one();
    let two = one.plus(one);
    let ghost m = F::modulus();
    let ghost va = values(a@);
    let ghost vb = values(b@);
    proof {
        F::lemma_modulus_large();
        lemma_small_mod(2, m);
    }
    let mut result = a;
    let mut carry = zero;
    let mut i: usize = 32;
    while i > 0
        invariant
            i <= 32,
            m == F::modulus(),
            m > 3,
            va == values(a@),
            vb == values(b@),
            zero.value() == 0,
            one.value() == 1,
            two.value() == 2,
            carry.value() == carry_into(va, vb, m, i - 1),
            forall|j: int| i <= j < 32 ==> (#[trigger] result[j]).value() == field_add(va, vb, m)[j],
        decreases i,
    {
        i -= 1;
        let sum = a[i].plus(b[i]).plus(carry);
        proof {
            let x = a[i as int].value() as int;
            let y = b[i as int].value() as int;
            let c = carry.value() as int;
            assert(va[i as int] == x && vb[i as int] == y);
            lemma_add_mod_noop(x + y, c, m as int);
            lemma_small_mod(c as nat, m);
            assert(sum.value() == digit_sum(va, vb, m, i as int));
        }
        if sum.at_least(two) {
            result[i] = sum.minus(two);
            carry = one;
            proof {
                vstd::arithmetic::div_mod::lemma_mod_bound(
                    (va[i as int] + vb[i as int] + carry_into(va, vb, m, i as int)) as int,
                    m as int,
                );
                lemma_small_mod((sum.value() - 2) as nat, m);
            }
        } else {
            result[i] = sum;
            carry = zero;
        }
    }
    proof {
        assert(values(result@) =~= field_add(va, vb, m));
        if all_bits(va) && all_bits(vb) {
            lemma_field_add_bits(va, vb, m);
            vstd::arithmetic::power2::lemma2_to64();
        }
    }
    result
}

/// Each entry read as a truth value: 0 stays 0, anything else is 1.
pub open spec fn truth_values(s: Seq<nat>) -> Seq<nat> {
    Seq::new(s.len(), |i: int| if s[i] == 0 { 0nat } else { 1nat })
}

/// The integer that a word stands for, most significant digit first, with
/// every element other than zero read as 1.
pub fn bits_to_u32<F: FieldElement>(bits: [F; 32]) -> (r: u32)
    ensures
        r == word_value(truth_values(values(bits@))),
        all_bits(values(bits@)) ==> r == word_value(values(bits@)),
{
    let zero = F::zero();
    let ghost t = truth_values(values(bits@));
    let mut acc: u32 = 0;
    let mut i: usize = 0;
    proof {
        assert(t.take(0).len() == 0);
        lemma2_to64();
    }
    while i < 32
        invariant
            i <= 32,
            zero.value() == 0,
            t == truth_values(values(bits@)),
            word_value(t.take(i as int)) < pow2(i as nat),
            i == 0 ==> acc == 0,
            i > 0 ==> acc == (word_value(t.take(i as int)) as u32) << ((32 - i) as u32),
        decreases 32 - i,
    {
        let b: u32 = if bits[i].equals(zero) {
            0
        } else {
            1
        };
        let shift: u32 = (31 - i) as u32;
        acc = acc | (b << shift);
        proof {
            let head = t.take(i as int);
            let next = t.take(i + 1);
            assert(next.drop_last() =~= head);
            assert(next.last() == t[i as int]);
            assert(t[i as int] == b);
            assert(all_bits(next));
            crate::bits::lemma_word_value_bound(next);
            lemma2_to64();
            let v = word_value(head) as u32;
            let v2 = word_value(next) as u32;
            assert(v2 == 2 * v + b);
            if i == 0 {
                assert((0u32 | (b << 31u32)) == (b << 31u32)) by (bit_vector);
            } else {
                assert(v < 0x8000_0000);
                assert(((v << 1u32) | b) == 2 * v + b) by (bit_vector)
                    requires
                        v < 0x8000_0000,
                        b <= 1,
                ;
                let w = (v << 1u32) | b;
                let up = (shift + 1) as u32;
                assert(((v << up) | (b << shift)) == (w << shift)) by (bit_vector)
                    requires
                        shift < 31,
                        up == shift + 1,
                        w == (v << 1u32) | b,
                ;
            }
        }
        i += 1;
    }
    proof {
        assert(t.take(32) =~= t);
        lemma2_to64();
        let v = word_value(t) as u32;
        assert(v << 0u32 == v) by (bit_vector);
        if all_bits(values(bits@)) {
            assert(t =~= values(bits@));
        }
    }
    acc
}

/// The lower-case hexadecimal digit for a number from 0 to 15.
pub open spec fn hex_char(d: nat) -> char {
    if d < 10 {
        ((48 + d) as u8) as char
    } else {
        ((87 + d) as u8) as char
    }
}

/// Hexadecimal digit `j` of a word, counted from the most significant.
pub open spec fn hex_nibble(x: u32, j: int) -> nat {
    (x as nat / pow2((4 * (7 - j)) as nat)) % 16
}

/// The eight lower-case hexadecimal digits of a word.
pub open spec fn hex_word(x: u32) -> Seq<char> {
    Seq::new(8, |j: int| hex_char(hex_nibble(x, j)))
}

/// The hexadecimal digits of a sequence of words, eight to a word, in
/// order.
pub open spec fn digest_hex(words: Seq<u32>) -> Seq<char> {
    Seq::new(8 * words.len(), |p: int| hex_word(words[p / 8])[p % 8])
}

/// The integers that the words of a state stand for, with every element
/// other than zero read as 1.
pub open spec fn digest_words(state: Seq<Seq<nat>>) -> Seq<u32> {
    Seq::new(state.len(), |i: int| word_value(truth_values(state[i])) as u32)
}

/// On words of binary digits, reading every element other than zero as 1
/// changes nothing.
pub proof fn lemma_digest_words_of_bits(state: Seq<Seq<nat>>)
    requires
        crate::bits::all_words(state),
    ensures
        digest_words(state) == crate::word_lemmas::words_of(state),
{
    assert forall|i: int| 0 <= i < state.len() implies digest_words(state)[i]
        == crate::word_lemmas::words_of(state)[i] by {
        assert(all_bits(state[i]));
        assert(truth_values(state[i]) =~= state[i]);
    }
    assert(digest_words(state) =~= crate::word_lemmas::words_of(state));
}

/// `String::push`: appends one character to the end of the string.
pub assume_specification[ String::push ](s: &mut String, c: char)
    ensures
        final(s)@ == old(s)@.push(c),
;

/// The lower-case hexadecimal digit for a number from 0 to 15.
fn hex_digit(d: u8) -> (c: char)
    requires
        d < 16,
    ensures
        c == hex_char(d as nat),
{
    if d < 10 {
        (48 + d) as char
    } else {
        (87 + d) as char
    }
}

/// The digest as text: each of the eight words of the state as eight
/// lower-case hexadecimal digits, in order.
#[allow(non_snake_case)]
pub fn digest_to_hex<F: FieldElement>(H: [[F; 32]; 8]) -> (r: String)
    ensures
        r@ == digest_hex(digest_words(crate::field::word_values(H@))),
        r@.len() == 64,
        crate::bits::all_words(crate::field::word_values(H@)) ==> r@ == digest_hex(
            crate::word_lemmas::words_of(crate::field::word_values(H@)),
        ),
{
    let ghost words = digest_words(crate::field::word_values(H@));
    proof {
        if crate::bits::all_words(crate::field::word_values(H@)) {
            lemma_digest_words_of_bits(crate::field::word_values(H@));
        }
    }
    let mut out = String::new();
    let mut i: usize = 0;
    while i < 8
        invariant
            i <= 8,
            words == digest_words(crate::field::word_values(H@)),
            out@ == digest_hex(words.take(i as int)),
        decreases 8 - i,
    {
        let x = bits_to_u32(H[i]);
        assert(x == words[i as int]);
        let mut j: usize = 0;
        while j < 8
            invariant
                j <= 8,
                i < 8,
                words.len() == 8,
                x == words[i as int],
                out@ == digest_hex(words.take(i as int)) + hex_word(x).take(j as int),
            decreases 8 - j,
        {
            let shift: u32 = (28 - 4 * j) as u32;
            let nibble: u32 = (x >> shift) & 0xf;
            proof {
                let y = x >> shift;
                vstd::bits::lemma_u32_shr_is_div(x, shift);
                assert(y & 0xf == y % 16) by (bit_vector);
                assert(nibble == hex_nibble(x, j as int));
            }
            out.push(hex_digit(nibble as u8));
            proof {
                assert(hex_word(x).take(j + 1) =~= hex_word(x).take(j as int).push(
                    hex_word(x)[j as int],
                ));
            }
            j += 1;
        }
        proof {
            assert(hex_word(x).take(8) =~= hex_word(x));
            assert(digest_hex(words.take(i as int)) + hex_word(x) =~= digest_hex(
                words.take(i + 1),
            ));
        }
        i += 1;
    }
    proof {
        assert(words.take(8) =~= words);
    }
    out
}

} // verus!

//! The padding of SHA-256, extended with zeros to a fixed capacity.
use crate::bits::{be_bits, is_bit_string, lemma_be_bits_are_bits};
use vstd::prelude::*;

verus! {

/// A run of `n` zero digits.
pub open spec fn zeros(n: nat) -> Seq<u8> {
    Seq::new(n, |i: int| 0u8)
}

/// The length of a message of `len` bits once it is padded as SHA-256
/// asks: the least multiple of 512 that leaves room for the marker digit
/// and the 64-digit length field.
pub open spec fn minimal_padded_len(len: nat) -> nat {
    (((len + 64) / 512 + 1) * 512) as nat
}

/// The offset at which the 64-digit length field of the padded message
/// begins.
pub open spec fn digest_index(len: nat) -> nat {
    (minimal_padded_len(len) - 64) as nat
}

/// The padded message: the digits of the message, a single 1, zeros up to
/// the length field, the length of the message as 64 binary digits, most
/// significant first, and then zeros up to the capacity `cap`.
pub open spec fn pad_spec(bits: Seq<u8>, cap: nat) -> Seq<u8>
    recommends
        minimal_padded_len(bits.len()) <= cap,
{
    bits + seq![1u8] + zeros((digest_index(bits.len()) - bits.len() - 1) as nat) + be_bits(
        bits.len(),
        64,
    ) + zeros((cap - minimal_padded_len(bits.len())) as nat)
}

/// The layout of a padded message: it has the length asked for; it opens
/// with the message, the marker and zeros; the length field sits at the
/// digest index; whatever follows is zero.
pub proof fn lemma_padding_layout(bits: Seq<u8>, cap: nat)
    requires
        minimal_padded_len(bits.len()) <= cap,
    ensures
        pad_spec(bits, cap).len() == cap,
        minimal_padded_len(bits.len()) % 512 == 0,
        bits.len() + 1 <= digest_index(bits.len()),
        digest_index(bits.len()) + 64 == minimal_padded_len(bits.len()),
        minimal_padded_len(bits.len()) < bits.len() + 65 + 512,
        pad_spec(bits, cap).subrange(0, bits.len() as int) == bits,
        pad_spec(bits, cap)[bits.len() as int] == 1,
        forall|i: int|
            bits.len() < i < digest_index(bits.len()) ==> #[trigger] pad_spec(bits, cap)[i] == 0,
        pad_spec(bits, cap).subrange(
            digest_index(bits.len()) as int,
            digest_index(bits.len()) as int + 64,
        ) == be_bits(bits.len(), 64),
        forall|i: int|
            minimal_padded_len(bits.len()) <= i < cap ==> #[trigger] pad_spec(bits, cap)[i] == 0,
        is_bit_string(bits) ==> is_bit_string(pad_spec(bits, cap)),
{
    let p = pad_spec(bits, cap);
    let idx = digest_index(bits.len());
    assert(p.subrange(0, bits.len() as int) =~= bits);
    assert(p.subrange(idx as int, idx as int + 64) =~= be_bits(bits.len(), 64));
    lemma_be_bits_are_bits(bits.len(), 64);
    if is_bit_string(bits) {
        assert forall|i: int| 0 <= i < p.len() implies #[trigger] p[i] <= 1 by {
            if i < bits.len() {
                assert(p[i] == bits[i]);
            } else if idx <= i < idx + 64 {
                assert(p[i] == be_bits(bits.len(), 64)[i - idx]);
            }
        }
    }
}

} // verus!

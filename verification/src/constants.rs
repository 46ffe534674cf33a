//! The initial hash value and the round constants of SHA-256, as 32-bit
//! words and as arrays of field elements.
use crate::bits::{lemma_be_bits_are_bits, word_bits};
use crate::field::{values, word_values, FieldElement};
use crate::sha_helpers::{bits_to_field, lift_bits, to_bits_be};
use vstd::prelude::*;

verus! {

/// The eight words of the initial hash value of SHA-256.
pub open spec fn initial_hash() -> Seq<u32> {
    seq![
        0x6a09e667u32,
        0xbb67ae85u32,
        0x3c6ef372u32,
        0xa54ff53au32,
        0x510e527fu32,
        0x9b05688cu32,
        0x1f83d9abu32,
        0x5be0cd19u32,
    ]
}

/// The sixty-four round constants of SHA-256.
pub open spec fn round_constant_words() -> Seq<u32> {
    seq![
        0x428a2f98u32, 0x71374491u32, 0xb5c0fbcfu32, 0xe9b5dba5u32,
        0x3956c25bu32, 0x59f111f1u32, 0x923f82a4u32, 0xab1c5ed5u32,
        0xd807aa98u32, 0x12835b01u32, 0x243185beu32, 0x550c7dc3u32,
        0x72be5d74u32, 0x80deb1feu32, 0x9bdc06a7u32, 0xc19bf174u32,
        0xe49b69c1u32, 0xefbe4786u32, 0x0fc19dc6u32, 0x240ca1ccu32,
        0x2de92c6fu32, 0x4a7484aau32, 0x5cb0a9dcu32, 0x76f988dau32,
        0x983e5152u32, 0xa831c66du32, 0xb00327c8u32, 0xbf597fc7u32,
        0xc6e00bf3u32, 0xd5a79147u32, 0x06ca6351u32, 0x14292967u32,
        0x27b70a85u32, 0x2e1b2138u32, 0x4d2c6dfcu32, 0x53380d13u32,
        0x650a7354u32, 0x766a0abbu32, 0x81c2c92eu32, 0x92722c85u32,
        0xa2bfe8a1u32, 0xa81a664bu32, 0xc24b8b70u32, 0xc76c51a3u32,
        0xd192e819u32, 0xd6990624u32, 0xf40e3585u32, 0x106aa070u32,
        0x19a4c116u32, 0x1e376c08u32, 0x2748774cu32, 0x34b0bcb5u32,
        0x391c0cb3u32, 0x4ed8aa4au32, 0x5b9cca4fu32, 0x682e6ff3u32,
        0x748f82eeu32, 0x78a5636fu32, 0x84c87814u32, 0x8cc70208u32,
        0x90befffau32, 0xa4506cebu32, 0xbef9a3f7u32, 0xc67178f2u32,
    ]
}

/// The binary digits of each word of a sequence, most significant first.
pub open spec fn encode_words(words: Seq<u32>) -> Seq<Seq<nat>> {
    Seq::new(words.len(), |i: int| word_bits(words[i]))
}

/// The 32 binary digits of a word as field elements, most significant
/// first.
pub fn encode_word<F: FieldElement>(x: u32) -> (r: [F; 32])
    ensures
        values(r@) == word_bits(x),
{
    let digits = to_bits_be::<32>(x as u64);
    let r = bits_to_field::<F, 32>(digits.as_slice());
    proof {
        F::lemma_modulus_large();
        lemma_be_bits_are_bits(x as nat, 32);
        assert forall|i: int| 0 <= i < 32 implies lift_bits(digits@, 32, F::modulus())[i]
            == word_bits(x)[i] by {
            assert(digits@[i] <= 1);
            vstd::arithmetic::div_mod::lemma_small_mod(digits@[i] as nat, F::modulus());
        }
        assert(values(r@) =~= word_bits(x));
    }
    r
}

/// The initial hash value of SHA-256, one field element to a binary digit.
pub fn initial_state<F: FieldElement>() -> (r: [[F; 32]; 8])
    ensures
        word_values(r@) == encode_words(initial_hash()),
{
    let h: [u32; 8] = [
        0x6a09e667,
        0xbb67ae85,
        0x3c6ef372,
        0xa54ff53a,
        0x510e527f,
        0x9b05688c,
        0x1f83d9ab,
        0x5be0cd19,
    ];
    assert(h@ =~= initial_hash());
    let blank: [F; 32] = encode_word::<F>(0);
    let mut out = [blank;8];
    let mut i: usize = 0;
    while i < 8
        invariant
            i <= 8,
            h@ == initial_hash(),
            forall|j: int| 0 <= j < i ==> values((#[trigger] out[j])@) == word_bits(h[j]),
        decreases 8 - i,
    {
        out[i] = encode_word::<F>(h[i]);
        i += 1;
    }
    assert(word_values(out@) =~= encode_words(initial_hash()));
    out
}

/// The round constants of SHA-256, one field element to a binary digit.
pub fn round_constants<F: FieldElement>() -> (r: [[F; 32]; 64])
    ensures
        word_values(r@) == encode_words(round_constant_words()),
{
    let k: [u32; 64] = [
        0x428a2f98, 0x71374491, 0xb5c0fbcf, 0xe9b5dba5,
        0x3956c25b, 0x59f111f1, 0x923f82a4, 0xab1c5ed5,
        0xd807aa98, 0x12835b01, 0x243185be, 0x550c7dc3,
        0x72be5d74, 0x80deb1fe, 0x9bdc06a7, 0xc19bf174,
        0xe49b69c1, 0xefbe4786, 0x0fc19dc6, 0x240ca1cc,
        0x2de92c6f, 0x4a7484aa, 0x5cb0a9dc, 0x76f988da,
        0x983e5152, 0xa831c66d, 0xb00327c8, 0xbf597fc7,
        0xc6e00bf3, 0xd5a79147, 0x06ca6351, 0x14292967,
        0x27b70a85, 0x2e1b2138, 0x4d2c6dfc, 0x53380d13,
        0x650a7354, 0x766a0abb, 0x81c2c92e, 0x92722c85,
        0xa2bfe8a1, 0xa81a664b, 0xc24b8b70, 0xc76c51a3,
        0xd192e819, 0xd6990624, 0xf40e3585, 0x106aa070,
        0x19a4c116, 0x1e376c08, 0x2748774c, 0x34b0bcb5,
        0x391c0cb3, 0x4ed8aa4a, 0x5b9cca4f, 0x682e6ff3,
        0x748f82ee, 0x78a5636f, 0x84c87814, 0x8cc70208,
        0x90befffa, 0xa4506ceb, 0xbef9a3f7, 0xc67178f2,
    ];
    assert(k@ =~= round_constant_words());
    let blank: [F; 32] = encode_word::<F>(0);
    let mut out = [blank;64];
    let mut i: usize = 0;
    while i < 64
        invariant
            i <= 64,
            k@ == round_constant_words(),
            forall|j: int| 0 <= j < i ==> values((#[trigger] out[j])@) == word_bits(k[j]),
        decreases 64 - i,
    {
        out[i] = encode_word::<F>(k[i]);
        i += 1;
    }
    assert(word_values(out@) =~= encode_words(round_constant_words()));
    out
}

} // verus!

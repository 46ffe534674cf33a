//! The hasher that always starts from the initial hash value.
use crate::bits::is_bit_string;
use crate::compress_lemmas::{is_state, lemma_encode_words, lemma_hash_values};
use crate::compress_spec::{compress, hash_values};
use crate::compression::{absorb_preimage, process_chunk};
use crate::constants::{encode_words, initial_hash, initial_state};
use crate::error::HashError;
use crate::field::{word_values, FieldElement};
use crate::sha256_spec::sha_blocks;
use crate::sha_helpers::lift_bits;
use crate::word_lemmas::words_of;
use std::marker::PhantomData;
use vstd::prelude::*;

verus! {

/// A SHA-256 hasher over field elements that always starts from the
/// initial hash value of SHA-256.
pub struct NativeSha256<F: FieldElement> {
    padded_preimage: Vec<u8>,
    _marker: PhantomData<F>,
}

impl<F: FieldElement> NativeSha256<F> {
    /// The padded preimage that is to be hashed.
    pub closed spec fn preimage(self) -> Seq<u8> {
        self.padded_preimage@
    }

    /// The digest that `hash` gives: the state after every chunk of the
    /// preimage, as canonical representatives.
    pub open spec fn digest(self) -> Seq<Seq<nat>> {
        hash_values(encode_words(initial_hash()), self.preimage(), F::modulus())
    }

    /// A hasher for a padded preimage.
    pub fn new(padded_preimage: Vec<u8>) -> (h: Self)
        ensures
            h.preimage() == padded_preimage@,
    {
        Self { padded_preimage, _marker: PhantomData }
    }

    /// Runs the compression on one chunk of 512 binary digits and leaves
    /// the result in `state`.
    #[allow(non_snake_case)]
    pub fn process_chunk(&mut self, bits: &[u8], state: &mut [[F; 32]; 8], K: [[F; 32]; 64]) -> (r:
        Result<(), HashError>)
        ensures
            r is Ok <==> bits@.len() == 512,
            r is Ok ==> word_values(final(state)@) == compress(
                word_values(old(state)@),
                word_values(K@),
                lift_bits(bits@, 512, F::modulus()),
                F::modulus(),
            ),
            r is Err ==> r->Err_0 == HashError::ChunkSizeInvariant && *final(state) == *old(state),
            final(self).preimage() == old(self).preimage(),
    {
        process_chunk(state, bits, &K)
    }

    /// Hashes the padded preimage, chunk after chunk, from the initial
    /// hash value of SHA-256, and returns the final state as the digest.
    pub fn hash(self) -> (r: Result<[[F; 32]; 8], HashError>)
        ensures
            r is Ok <==> self.preimage().len() % 512 == 0,
            r is Ok ==> word_values(r->Ok_0@) == self.digest(),
            r is Ok && is_bit_string(self.preimage()) ==> is_state(word_values(r->Ok_0@))
                && words_of(word_values(r->Ok_0@)) == sha_blocks(
                initial_hash(),
                self.preimage(),
                self.preimage().len() / 512,
            ),
            r is Err ==> r->Err_0 == HashError::AlignmentInvariant,
    {
        let mut state = initial_state::<F>();
        proof {
            if is_bit_string(self.preimage()) {
                F::lemma_modulus_large();
                lemma_encode_words(initial_hash());
                lemma_hash_values(encode_words(initial_hash()), self.preimage(), F::modulus());
            }
        }
        match absorb_preimage(&mut state, self.padded_preimage.as_slice()) {
            Ok(()) => Ok(state),
            Err(e) => Err(e),
        }
    }
}

} // verus!

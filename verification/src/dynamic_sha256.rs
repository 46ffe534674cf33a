//! The hasher that carries its state, so that hashing can be resumed.
use crate::bits::is_bit_string;
use crate::compress_lemmas::{is_state, lemma_hash_values};
use crate::compress_spec::{compress, hash_values};
use crate::compression::{absorb_preimage, process_chunk};
use crate::constants::{encode_words, initial_hash, initial_state};
use crate::error::HashError;
use crate::field::{word_values, FieldElement};
use crate::sha256_spec::sha_blocks;
use crate::sha_helpers::lift_bits;
use crate::word_lemmas::words_of;
use vstd::prelude::*;

verus! {

/// A SHA-256 hasher over field elements that carries its state with it, so
/// that hashing can start from a state that an earlier run left.
pub struct DynamicSha256<F: FieldElement> {
    padded_preimage: Vec<u8>,
    digest_index: usize,
    state: [[F; 32]; 8],
}

impl<F: FieldElement> DynamicSha256<F> {
    /// The padded preimage that is still to be hashed.
    pub closed spec fn preimage(self) -> Seq<u8> {
        self.padded_preimage@
    }

    /// The offset of the length field within the padded preimage, as it
    /// was handed in.
    pub closed spec fn index(self) -> usize {
        self.digest_index
    }

    /// The eight words of the running state.
    pub closed spec fn state(self) -> Seq<[F; 32]> {
        self.state@
    }

    /// The digest that `hash` gives: the state after every chunk of the
    /// preimage, as canonical representatives.
    pub open spec fn digest(self) -> Seq<Seq<nat>> {
        hash_values(word_values(self.state()), self.preimage(), F::modulus())
    }

    /// A hasher for a padded preimage. Without an initial state it starts
    /// from the initial hash value of SHA-256.
    pub fn new(
        padded_preimage: Vec<u8>,
        digest_index: usize,
        init_state: Option<[[F; 32]; 8]>,
    ) -> (h: Self)
        ensures
            h.preimage() == padded_preimage@,
            h.index() == digest_index,
            init_state is Some ==> h.state() == init_state->Some_0@,
            init_state is None ==> word_values(h.state()) == encode_words(initial_hash()),
    {
        let state = match init_state {
            Some(s) => s,
            None => initial_state::<F>(),
        };
        Self { padded_preimage, digest_index, state }
    }

    /// Runs the compression on one chunk of 512 binary digits and keeps
    /// the result as the running state.
    #[allow(non_snake_case)]
    pub fn process_chunk(&mut self, bits: &[u8], K: [[F; 32]; 64]) -> (r: Result<(), HashError>)
        ensures
            r is Ok <==> bits@.len() == 512,
            r is Ok ==> word_values(final(self).state()) == compress(
                word_values(old(self).state()),
                word_values(K@),
                lift_bits(bits@, 512, F::modulus()),
                F::modulus(),
            ),
            r is Err ==> r->Err_0 == HashError::ChunkSizeInvariant && final(self).state() == old(
                self,
            ).state(),
            final(self).preimage() == old(self).preimage(),
            final(self).index() == old(self).index(),
    {
        process_chunk(&mut self.state, bits, &K)
    }

    /// Hashes the padded preimage, chunk after chunk, from the state the
    /// hasher was made with, and returns the final state as the digest.
    pub fn hash(self) -> (r: Result<[[F; 32]; 8], HashError>)
        ensures
            r is Ok <==> self.preimage().len() % 512 == 0,
            r is Ok ==> word_values(r->Ok_0@) == self.digest(),
            r is Ok && is_state(word_values(self.state())) && is_bit_string(self.preimage())
                ==> is_state(word_values(r->Ok_0@)) && words_of(word_values(r->Ok_0@))
                == sha_blocks(
                words_of(word_values(self.state())),
                self.preimage(),
                self.preimage().len() / 512,
            ),
            r is Err ==> r->Err_0 == HashError::AlignmentInvariant,
    {
        let mut state = self.state;
        proof {
            if is_state(word_values(self.state())) && is_bit_string(self.preimage()) {
                F::lemma_modulus_large();
                lemma_hash_values(word_values(self.state()), self.preimage(), F::modulus());
            }
        }
        match absorb_preimage(&mut state, self.padded_preimage.as_slice()) {
            Ok(()) => Ok(state),
            Err(e) => Err(e),
        }
    }
}

} // verus!

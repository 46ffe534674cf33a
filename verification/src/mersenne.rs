//! The field of integers modulo 2^61 - 1, on machine words.
use crate::field::FieldElement;
use vstd::arithmetic::div_mod::{lemma_mod_add_multiples_vanish, lemma_small_mod};
use vstd::prelude::*;

verus! {

/// The Mersenne prime 2^61 - 1.
pub const MERSENNE_61: u64 = 0x1fff_ffff_ffff_ffff;

/// An element of the field of integers modulo 2^61 - 1, held as its
/// canonical representative in a machine word. Its arithmetic is plain
/// machine arithmetic, so the hash can run over it with nothing but this
/// library.
#[derive(Clone, Copy)]
pub struct Mersenne61 {
    repr: u64,
}

impl Mersenne61 {
    #[verifier::type_invariant]
    spec fn reduced(self) -> bool {
        self.repr < MERSENNE_61
    }

    /// The canonical representative.
    pub closed spec fn repr_view(self) -> u64 {
        self.repr
    }

    /// The residue class of `n`.
    pub fn new(n: u64) -> (r: Self)
        ensures
            r.value() == n % MERSENNE_61,
    {
        Mersenne61 { repr: n % MERSENNE_61 }
    }

    /// The canonical representative.
    pub fn get(self) -> (n: u64)
        ensures
            n == self.value(),
            n < MERSENNE_61,
    {
        proof {
            use_type_invariant(&self);
        }
        self.repr
    }
}

impl FieldElement for Mersenne61 {
    open spec fn value(self) -> nat {
        self.repr_view() as nat
    }

    open spec fn modulus() -> nat {
        MERSENNE_61 as nat
    }

    proof fn lemma_modulus_large() {
    }

    fn zero() -> (r: Self) {
        Mersenne61 { repr: 0 }
    }

    fn one() -> (r: Self) {
        Mersenne61 { repr: 1 }
    }

    fn from_u8(b: u8) -> (r: Self) {
        proof {
            lemma_small_mod(b as nat, MERSENNE_61 as nat);
        }
        Mersenne61 { repr: b as u64 }
    }

    fn plus(self, rhs: Self) -> (r: Self) {
        proof {
            use_type_invariant(&self);
            use_type_invariant(&rhs);
        }
        Mersenne61 { repr: (self.repr + rhs.repr) % MERSENNE_61 }
    }

    fn minus(self, rhs: Self) -> (r: Self) {
        proof {
            use_type_invariant(&self);
            use_type_invariant(&rhs);
            lemma_mod_add_multiples_vanish(self.repr - rhs.repr, MERSENNE_61 as int);
        }
        Mersenne61 { repr: (self.repr + MERSENNE_61 - rhs.repr) % MERSENNE_61 }
    }

    fn times(self, rhs: Self) -> (r: Self) {
        proof {
            use_type_invariant(&self);
            use_type_invariant(&rhs);
            assert(self.repr * rhs.repr <= 0x1fff_ffff_ffff_ffff * 0x1fff_ffff_ffff_ffff)
                by (nonlinear_arith)
                requires
                    self.repr < 0x1fff_ffff_ffff_ffff,
                    rhs.repr < 0x1fff_ffff_ffff_ffff,
            ;
        }
        let wide: u128 = (self.repr as u128) * (rhs.repr as u128);
        Mersenne61 { repr: (wide % (MERSENNE_61 as u128)) as u64 }
    }

    fn at_least(self, rhs: Self) -> (r: bool) {
        self.repr >= rhs.repr
    }

    fn equals(self, rhs: Self) -> (r: bool) {
        self.repr == rhs.repr
    }
}

} // verus!

//! The field that the hash is computed over.
use crate::algebra_spec::rotate_seq;
use vstd::prelude::*;

verus! {

/// An element of a prime field, seen through its canonical representative.
///
/// The bit-sliced hash only ever needs the ring operations, the two
/// identities, and comparisons of canonical representatives.
pub trait FieldElement: Copy + Sized {
    /// The canonical representative of `self`, an integer below the modulus.
    spec fn value(self) -> nat;

    /// The number of elements of the field.
    spec fn modulus() -> nat;

    /// The field is large enough that the sum of three bits does not wrap.
    proof fn lemma_modulus_large()
        ensures
            Self::modulus() > 3,
    ;

    fn zero() -> (r: Self)
        ensures
            r.value() == 0,
    ;

    fn one() -> (r: Self)
        ensures
            r.value() == 1,
    ;

    fn from_u8(b: u8) -> (r: Self)
        ensures
            r.value() == (b as nat) % Self::modulus(),
    ;

    fn plus(self, rhs: Self) -> (r: Self)
        ensures
            r.value() == (self.value() + rhs.value()) % Self::modulus(),
    ;

    fn minus(self, rhs: Self) -> (r: Self)
        ensures
            r.value() == (self.value() - rhs.value()) % (Self::modulus() as int),
    ;

    fn times(self, rhs: Self) -> (r: Self)
        ensures
            r.value() == (self.value() * rhs.value()) % Self::modulus(),
    ;

    fn at_least(self, rhs: Self) -> (r: bool)
        ensures
            r == (self.value() >= rhs.value()),
    ;

    fn equals(self, rhs: Self) -> (r: bool)
        ensures
            r == (self.value() == rhs.value()),
    ;
}

/// The canonical representatives of a sequence of field elements.
pub open spec fn values<F: FieldElement>(a: Seq<F>) -> Seq<nat> {
    Seq::new(a.len(), |i: int| a[i].value())
}

/// The canonical representatives of a sequence of 32-element words.
pub open spec fn word_values<F: FieldElement>(s: Seq<[F; 32]>) -> Seq<Seq<nat>> {
    Seq::new(s.len(), |i: int| values(s[i]@))
}

/// Rotating field elements rotates their canonical representatives.
pub proof fn lemma_values_rotate<F: FieldElement>(a: Seq<F>, rot: nat)
    ensures
        values(rotate_seq(a, rot)) == rotate_seq(
            values(a),
            rot,
        ),
{
    let l = rotate_seq(a, rot);
    let r = rotate_seq(values(a), rot);
    assert forall|j: int| 0 <= j < a.len() implies values(l)[j] == r[j] by {
        let n = a.len() as int;
        vstd::arithmetic::div_mod::lemma_mod_bound(j - rot, n);
    }
    assert(values(l) =~= r);
}

} // verus!

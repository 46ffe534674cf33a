//! The base field of the Pallas curve, with `ark_ff` doing the arithmetic.
use crate::field::FieldElement;
use ark_ff::{BigInt, One, PrimeField, Zero};
use ark_pallas::Fq;
use vstd::prelude::*;

verus! {

/// The order of the base field of the Pallas curve.
pub open spec fn pallas_modulus() -> nat {
    28948022309329048855892746252171976963363056481941560715954676764349967630337nat
}

/// The integer that four 64-bit limbs stand for, least significant limb
/// first.
pub open spec fn limbs_value(limbs: Seq<u64>) -> nat
    recommends
        limbs.len() == 4,
{
    (limbs[0] as nat) + (limbs[1] as nat) * 0x1_0000_0000_0000_0000nat + (limbs[2] as nat)
        * 0x1_0000_0000_0000_0000_0000_0000_0000_0000nat + (limbs[3] as nat)
        * 0x1_0000_0000_0000_0000_0000_0000_0000_0000_0000_0000_0000_0000nat
}

/// `Fq::from_bigint`: tells whether the limbs stand for an integer below the
/// field order, which is when `ark_ff` accepts them as a field element.
#[verifier::external_body]
fn fq_is_canonical(a: &[u64; 4]) -> (r: bool)
    ensures
        r == (limbs_value(a@) < pallas_modulus()),
{
    Fq::from_bigint(BigInt::new(*a)).is_some()
}

/// `Fq::zero`: the limbs of the additive identity stand for 0.
#[verifier::external_body]
fn fq_zero() -> (r: [u64; 4])
    ensures
        limbs_value(r@) == 0,
{
    Fq::zero().into_bigint().0
}

/// `Fq::one`: the limbs of the multiplicative identity stand for 1.
#[verifier::external_body]
fn fq_one() -> (r: [u64; 4])
    ensures
        limbs_value(r@) == 1,
{
    Fq::one().into_bigint().0
}

/// `Fq::from(u8)`: a byte is below the field order, so the element made from
/// it has the byte itself as its canonical representative.
#[verifier::external_body]
fn fq_from_u8(b: u8) -> (r: [u64; 4])
    ensures
        limbs_value(r@) == b as nat,
{
    Fq::from(b).into_bigint().0
}

/// `Fq`'s `+`: addition of canonical representatives modulo the field order.
#[verifier::external_body]
fn fq_add(a: &[u64; 4], b: &[u64; 4]) -> (r: [u64; 4])
    requires
        limbs_value(a@) < pallas_modulus(),
        limbs_value(b@) < pallas_modulus(),
    ensures
        limbs_value(r@) == (limbs_value(a@) + limbs_value(b@)) % pallas_modulus(),
{
    let x = Fq::from_bigint(BigInt::new(*a)).unwrap();
    let y = Fq::from_bigint(BigInt::new(*b)).unwrap();
    (x + y).into_bigint().0
}

/// `Fq`'s `-`: subtraction of canonical representatives modulo the field
/// order, the result again in the range from 0 up to the order.
#[verifier::external_body]
fn fq_sub(a: &[u64; 4], b: &[u64; 4]) -> (r: [u64; 4])
    requires
        limbs_value(a@) < pallas_modulus(),
        limbs_value(b@) < pallas_modulus(),
    ensures
        limbs_value(r@) == (limbs_value(a@) - limbs_value(b@)) % (pallas_modulus() as int),
{
    let x = Fq::from_bigint(BigInt::new(*a)).unwrap();
    let y = Fq::from_bigint(BigInt::new(*b)).unwrap();
    (x - y).into_bigint().0
}

/// `Fq`'s `*`: multiplication of canonical representatives modulo the field
/// order.
#[verifier::external_body]
fn fq_mul(a: &[u64; 4], b: &[u64; 4]) -> (r: [u64; 4])
    requires
        limbs_value(a@) < pallas_modulus(),
        limbs_value(b@) < pallas_modulus(),
    ensures
        limbs_value(r@) == (limbs_value(a@) * limbs_value(b@)) % pallas_modulus(),
{
    let x = Fq::from_bigint(BigInt::new(*a)).unwrap();
    let y = Fq::from_bigint(BigInt::new(*b)).unwrap();
    (x * y).into_bigint().0
}

/// `Fq`'s `>=`: `ark_ff` orders field elements as it orders their canonical
/// representatives.
#[verifier::external_body]
fn fq_ge(a: &[u64; 4], b: &[u64; 4]) -> (r: bool)
    requires
        limbs_value(a@) < pallas_modulus(),
        limbs_value(b@) < pallas_modulus(),
    ensures
        r == (limbs_value(a@) >= limbs_value(b@)),
{
    let x = Fq::from_bigint(BigInt::new(*a)).unwrap();
    let y = Fq::from_bigint(BigInt::new(*b)).unwrap();
    x >= y
}

/// `Fq`'s `==`: two field elements are equal exactly when their canonical
/// representatives are.
#[verifier::external_body]
fn fq_eq(a: &[u64; 4], b: &[u64; 4]) -> (r: bool)
    requires
        limbs_value(a@) < pallas_modulus(),
        limbs_value(b@) < pallas_modulus(),
    ensures
        r == (limbs_value(a@) == limbs_value(b@)),
{
    let x = Fq::from_bigint(BigInt::new(*a)).unwrap();
    let y = Fq::from_bigint(BigInt::new(*b)).unwrap();
    x == y
}

/// An element of the base field of the Pallas curve, held as the limbs of
/// its canonical representative. All arithmetic on it is done by `ark_ff`.
#[derive(Clone, Copy)]
pub struct Fp {
    limbs: [u64; 4],
}

impl Fp {
    #[verifier::type_invariant]
    spec fn canonical(self) -> bool {
        limbs_value(self.limbs@) < pallas_modulus()
    }

    /// The limbs of the canonical representative, least significant first.
    pub closed spec fn limbs_view(self) -> Seq<u64> {
        self.limbs@
    }

    /// The element whose canonical representative the limbs stand for, if
    /// they stand for an integer below the field order.
    pub fn from_limbs(limbs: [u64; 4]) -> (r: Option<Fp>)
        ensures
            r is Some <==> limbs_value(limbs@) < pallas_modulus(),
            r is Some ==> r.unwrap().limbs_view() == limbs@,
    {
        if fq_is_canonical(&limbs) {
            Some(Fp { limbs })
        } else {
            None
        }
    }

    /// The limbs of the canonical representative, least significant first.
    pub fn to_limbs(self) -> (r: [u64; 4])
        ensures
            r@ == self.limbs_view(),
            limbs_value(r@) < pallas_modulus(),
    {
        proof {
            use_type_invariant(&self);
        }
        self.limbs
    }
}

impl FieldElement for Fp {
    open spec fn value(self) -> nat {
        limbs_value(self.limbs_view())
    }

    open spec fn modulus() -> nat {
        pallas_modulus()
    }

    proof fn lemma_modulus_large() {
    }

    fn zero() -> (r: Self) {
        Fp { limbs: fq_zero() }
    }

    fn one() -> (r: Self) {
        Fp { limbs: fq_one() }
    }

    fn from_u8(b: u8) -> (r: Self) {
        let limbs = fq_from_u8(b);
        assert((b as nat) % pallas_modulus() == b as nat);
        Fp { limbs }
    }

    fn plus(self, rhs: Self) -> (r: Self) {
        proof {
            use_type_invariant(&self);
            use_type_invariant(&rhs);
        }
        Fp { limbs: fq_add(&self.limbs, &rhs.limbs) }
    }

    fn minus(self, rhs: Self) -> (r: Self) {
        proof {
            use_type_invariant(&self);
            use_type_invariant(&rhs);
        }
        Fp { limbs: fq_sub(&self.limbs, &rhs.limbs) }
    }

    fn times(self, rhs: Self) -> (r: Self) {
        proof {
            use_type_invariant(&self);
            use_type_invariant(&rhs);
        }
        Fp { limbs: fq_mul(&self.limbs, &rhs.limbs) }
    }

    fn at_least(self, rhs: Self) -> (r: bool) {
        proof {
            use_type_invariant(&self);
            use_type_invariant(&rhs);
        }
        fq_ge(&self.limbs, &rhs.limbs)
    }

    fn equals(self, rhs: Self) -> (r: bool) {
        proof {
            use_type_invariant(&self);
            use_type_invariant(&rhs);
        }
        fq_eq(&self.limbs, &rhs.limbs)
    }
}

} // verus!

use field_sha256::constants::encode_word;
use field_sha256::dynamic_sha256::DynamicSha256;
use field_sha256::field::FieldElement;
use field_sha256::mersenne::{Mersenne61, MERSENNE_61};
use field_sha256::native_sha256::NativeSha256;
use field_sha256::pallas::Fp;
use field_sha256::sha_helpers::{
    and, bits_to_u32, digest_to_hex, from_hex, not, sha256_pad, wrapping_add, xor,
};

#[test]
fn mersenne_elements_are_reduced() {
    assert_eq!(MERSENNE_61, (1u64 << 61) - 1);
    assert_eq!(Mersenne61::new(5).get(), 5);
    assert_eq!(Mersenne61::new(MERSENNE_61).get(), 0);
    assert_eq!(Mersenne61::new(MERSENNE_61 + 7).get(), 7);
    assert_eq!(Mersenne61::new(u64::MAX).get(), u64::MAX % MERSENNE_61);
    assert_eq!(Mersenne61::zero().get(), 0);
    assert_eq!(Mersenne61::one().get(), 1);
    assert_eq!(Mersenne61::from_u8(200).get(), 200);
}

#[test]
fn mersenne_arithmetic_is_modular() {
    let top = Mersenne61::new(MERSENNE_61 - 1);
    assert_eq!(Mersenne61::new(3).plus(Mersenne61::new(4)).get(), 7);
    assert_eq!(top.plus(Mersenne61::new(1)).get(), 0);
    assert_eq!(top.plus(top).get(), MERSENNE_61 - 2);
    assert_eq!(Mersenne61::new(9).minus(Mersenne61::new(4)).get(), 5);
    assert_eq!(Mersenne61::new(0).minus(Mersenne61::new(1)).get(), MERSENNE_61 - 1);
    assert_eq!(Mersenne61::new(6).times(Mersenne61::new(7)).get(), 42);
    assert_eq!(top.times(top).get(), 1);
    // 2^60 * 2 = 2^61 = 1 modulo 2^61 - 1
    assert_eq!(Mersenne61::new(1 << 60).times(Mersenne61::new(2)).get(), 1);
    assert!(top.at_least(Mersenne61::new(2)));
    assert!(!Mersenne61::new(1).at_least(Mersenne61::new(2)));
    assert!(Mersenne61::new(2).at_least(Mersenne61::new(2)));
    assert!(Mersenne61::new(MERSENNE_61 + 1).equals(Mersenne61::one()));
    assert!(!Mersenne61::new(3).equals(Mersenne61::new(4)));
}

#[test]
fn algebra_agrees_over_both_fields() {
    let xs = [0x00000000u32, 0xffffffff, 0x12345678, 0x80000001];
    for x in xs {
        for y in xs {
            let (a, b) = (encode_word::<Mersenne61>(x), encode_word::<Mersenne61>(y));
            let (c, d) = (encode_word::<Fp>(x), encode_word::<Fp>(y));
            assert_eq!(bits_to_u32(and(a, b)), x & y);
            assert_eq!(bits_to_u32(xor(a, b)), x ^ y);
            assert_eq!(bits_to_u32(not(a)), !x);
            assert_eq!(bits_to_u32(wrapping_add(a, b)), x.wrapping_add(y));
            assert_eq!(bits_to_u32(and(c, d)), x & y);
            assert_eq!(bits_to_u32(xor(c, d)), x ^ y);
            assert_eq!(bits_to_u32(not(c)), !x);
            assert_eq!(bits_to_u32(wrapping_add(c, d)), x.wrapping_add(y));
        }
    }
}

#[test]
fn digest_does_not_depend_on_the_field() {
    let bits = from_hex("616263").unwrap();
    let (padded, index) = sha256_pad(bits, 512).unwrap();
    let small = NativeSha256::<Mersenne61>::new(padded.clone()).hash().unwrap();
    let large = NativeSha256::<Fp>::new(padded.clone()).hash().unwrap();
    let resumable = DynamicSha256::<Mersenne61>::new(padded, index, None).hash().unwrap();
    assert_eq!(
        digest_to_hex(small),
        "ba7816bf8f01cfea414140de5dae2223b00361a396177a9cb410ff61f20015ad"
    );
    assert_eq!(digest_to_hex(small), digest_to_hex(large));
    assert_eq!(digest_to_hex(small), digest_to_hex(resumable));
}

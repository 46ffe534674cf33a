use field_sha256::constants::{encode_word, initial_state, round_constants};
use field_sha256::error::HashError;
use field_sha256::field::FieldElement;
use field_sha256::pallas::Fp;
use field_sha256::sha_helpers::{
    and, bits_to_field, bits_to_u32, digest_to_hex, from_hex, not, right_shift, rotate_right,
    sha256_pad, to_bits_be, wrapping_add, xor,
};
use rand::Rng;

const MODULUS: [u64; 4] = [
    0x992d30ed00000001,
    0x224698fc094cf91b,
    0x0000000000000000,
    0x4000000000000000,
];

const MODULUS_MINUS_ONE: [u64; 4] = [
    0x992d30ed00000000,
    0x224698fc094cf91b,
    0x0000000000000000,
    0x4000000000000000,
];

fn fp(n: u64) -> Fp {
    Fp::from_limbs([n, 0, 0, 0]).unwrap()
}

fn word(x: u32) -> [Fp; 32] {
    encode_word::<Fp>(x)
}

fn small(values: &[u64]) -> Vec<u64> {
    values.to_vec()
}

fn limbs_of<const N: usize>(a: [Fp; N]) -> Vec<u64> {
    a.iter()
        .map(|x| {
            let l = x.to_limbs();
            assert_eq!([l[1], l[2], l[3]], [0, 0, 0]);
            l[0]
        })
        .collect()
}

#[test]
fn from_hex_gives_the_bits_of_each_byte() {
    assert_eq!(from_hex("00"), Ok(vec![0, 0, 0, 0, 0, 0, 0, 0]));
    assert_eq!(
        from_hex("a5c3"),
        Ok(vec![1, 0, 1, 0, 0, 1, 0, 1, 1, 1, 0, 0, 0, 0, 1, 1])
    );
    assert_eq!(from_hex("A5"), from_hex("a5"));
    assert_eq!(from_hex("fF"), Ok(vec![1; 8]));
    assert_eq!(from_hex(""), Ok(vec![]));
}

#[test]
fn from_hex_rejects_what_is_not_hexadecimal() {
    assert_eq!(from_hex("0"), Err(HashError::DecodeError));
    assert_eq!(from_hex("abc"), Err(HashError::DecodeError));
    assert_eq!(from_hex("zz"), Err(HashError::DecodeError));
    assert_eq!(from_hex("0x00"), Err(HashError::DecodeError));
    assert_eq!(from_hex("é"), Err(HashError::DecodeError));
    assert_eq!(from_hex("00 "), Err(HashError::DecodeError));
}

#[test]
fn to_bits_be_is_big_endian() {
    assert_eq!(to_bits_be::<8>(0xa5), [1, 0, 1, 0, 0, 1, 0, 1]);
    assert_eq!(to_bits_be::<4>(1), [0, 0, 0, 1]);
    assert_eq!(to_bits_be::<0>(7), [0u8; 0]);
    let sixty_four = to_bits_be::<64>(8);
    assert_eq!(sixty_four[60], 1);
    assert_eq!(sixty_four.iter().map(|b| *b as u32).sum::<u32>(), 1);
    assert_eq!(to_bits_be::<64>(u64::MAX), [1u8; 64]);
}

#[test]
fn to_bits_be_truncates_and_extends() {
    // Only the low digits are kept.
    assert_eq!(to_bits_be::<4>(0xa5), [0, 1, 0, 1]);
    // Beyond 64 digits the high ones are zero.
    let wide = to_bits_be::<70>(u64::MAX);
    assert_eq!(&wide[..6], &[0u8; 6]);
    assert_eq!(&wide[6..], &[1u8; 64]);
}

#[test]
fn bits_to_field_pads_with_zero_and_cuts_at_the_array() {
    let lifted = bits_to_field::<Fp, 5>(&[1, 0, 1]);
    assert_eq!(limbs_of(lifted), small(&[1, 0, 1, 0, 0]));
    let cut = bits_to_field::<Fp, 2>(&[1, 1, 1, 1]);
    assert_eq!(limbs_of(cut), small(&[1, 1]));
    let other = bits_to_field::<Fp, 2>(&[7, 255]);
    assert_eq!(limbs_of(other), small(&[7, 255]));
}

#[test]
fn padding_has_the_documented_layout() {
    let bits = from_hex("616263").unwrap();
    let (padded, index) = sha256_pad(bits.clone(), 1024).unwrap();
    assert_eq!(padded.len(), 1024);
    assert_eq!(index, 448);
    assert_eq!(&padded[..24], &bits[..]);
    assert_eq!(padded[24], 1);
    assert!(padded[25..448].iter().all(|b| *b == 0));
    assert_eq!(&padded[448..512], &to_bits_be::<64>(24)[..]);
    assert!(padded[512..].iter().all(|b| *b == 0));
}

#[test]
fn padding_of_the_empty_message() {
    let (padded, index) = sha256_pad(Vec::new(), 512).unwrap();
    assert_eq!(index, 448);
    assert_eq!(padded[0], 1);
    assert!(padded[1..].iter().all(|b| *b == 0));
    assert_eq!(padded.len(), 512);
}

#[test]
fn padding_at_the_block_boundary() {
    // 447 digits are the most that fit one block.
    let (padded, index) = sha256_pad(vec![1u8; 447], 512).unwrap();
    assert_eq!((padded.len(), index), (512, 448));
    assert_eq!(padded[447], 1);
    assert_eq!(&padded[448..], &to_bits_be::<64>(447)[..]);
    // One more and a second block is needed.
    assert_eq!(
        sha256_pad(vec![1u8; 448], 512),
        Err(HashError::CapacityError)
    );
    let (padded, index) = sha256_pad(vec![1u8; 448], 1024).unwrap();
    assert_eq!((padded.len(), index), (1024, 960));
    assert_eq!(padded[448], 1);
    assert!(padded[449..960].iter().all(|b| *b == 0));
    assert_eq!(&padded[960..], &to_bits_be::<64>(448)[..]);
}

#[test]
fn padding_refuses_a_capacity_that_is_too_small() {
    assert_eq!(
        sha256_pad(vec![0u8; 8], 511),
        Err(HashError::CapacityError)
    );
    assert_eq!(sha256_pad(vec![0u8; 8], 0), Err(HashError::CapacityError));
    assert_eq!(sha256_pad(vec![0u8; 600], 8), Err(HashError::CapacityError));
    assert_eq!(
        sha256_pad(vec![0u8; 512], 1023),
        Err(HashError::CapacityError)
    );
}

#[test]
fn padding_accepts_a_capacity_that_is_no_multiple_of_512() {
    let (padded, index) = sha256_pad(vec![1u8; 3], 600).unwrap();
    assert_eq!((padded.len(), index), (600, 448));
    assert!(padded[512..].iter().all(|b| *b == 0));
}

#[test]
fn and_xor_not_follow_the_truth_tables() {
    let a = [fp(0), fp(0), fp(1), fp(1)];
    let b = [fp(0), fp(1), fp(0), fp(1)];
    assert_eq!(limbs_of(and(a, b)), small(&[0, 0, 0, 1]));
    assert_eq!(limbs_of(xor(a, b)), small(&[0, 1, 1, 0]));
    assert_eq!(limbs_of(not(a)), small(&[1, 1, 0, 0]));
}

#[test]
fn and_xor_not_are_ring_expressions() {
    let a = [fp(3), fp(5)];
    let b = [fp(4), fp(0)];
    assert_eq!(limbs_of(and(a, b)), small(&[12, 0]));
    // 5 + 0 - 0 = 5
    assert_eq!(limbs_of(xor([fp(5)], [fp(0)])), small(&[5]));
    // 1 - 3 = p - 2, 3 + 4 - 24 = p - 17
    let wrapped = not([fp(3)])[0].to_limbs();
    assert_eq!(
        wrapped,
        [MODULUS[0] - 2, MODULUS[1], MODULUS[2], MODULUS[3]]
    );
    let wrapped = xor(a, b)[0].to_limbs();
    assert_eq!(
        wrapped,
        [MODULUS[0] - 17, MODULUS[1], MODULUS[2], MODULUS[3]]
    );
}

#[test]
fn rotate_right_moves_index_i_to_i_plus_r() {
    let w = [fp(10), fp(11), fp(12), fp(13), fp(14)];
    assert_eq!(limbs_of(rotate_right(2, w)), small(&[13, 14, 10, 11, 12]));
    assert_eq!(limbs_of(rotate_right(0, w)), small(&[10, 11, 12, 13, 14]));
    assert_eq!(limbs_of(rotate_right(5, w)), small(&[10, 11, 12, 13, 14]));
    assert_eq!(limbs_of(rotate_right(7, w)), small(&[13, 14, 10, 11, 12]));
    assert_eq!(
        limbs_of(rotate_right(usize::MAX, w)),
        limbs_of(rotate_right(usize::MAX % 5, w))
    );
    let empty: [Fp; 0] = [];
    assert_eq!(rotate_right(3, empty).len(), 0);
}

#[test]
fn rotate_right_has_period_32_on_words() {
    let mut rng = rand::thread_rng();
    let x: u32 = rng.gen();
    let w = word(x);
    assert_eq!(bits_to_u32(rotate_right(32, w)), x);
    for r in 0..40usize {
        assert_eq!(bits_to_u32(rotate_right(r, w)), x.rotate_right(r as u32));
        assert_eq!(
            bits_to_u32(rotate_right(32 - r % 32, rotate_right(r, w))),
            x
        );
    }
}

#[test]
fn right_shift_fills_with_zero() {
    let w = [fp(10), fp(11), fp(12), fp(13)];
    assert_eq!(limbs_of(right_shift(1, w)), small(&[0, 10, 11, 12]));
    assert_eq!(limbs_of(right_shift(0, w)), small(&[10, 11, 12, 13]));
    assert_eq!(limbs_of(right_shift(3, w)), small(&[0, 0, 0, 10]));
    assert_eq!(limbs_of(right_shift(4, w)), small(&[0, 0, 0, 0]));
    assert_eq!(limbs_of(right_shift(usize::MAX, w)), small(&[0, 0, 0, 0]));
    let x: u32 = 0xdeadbeef;
    for s in 0..32usize {
        assert_eq!(bits_to_u32(right_shift(s, word(x))), x >> s);
    }
    assert_eq!(bits_to_u32(right_shift(32, word(x))), 0);
}

#[test]
fn wrapping_add_matches_machine_addition() {
    let mut rng = rand::thread_rng();
    for _ in 0..50 {
        let x: u32 = rng.gen();
        let y: u32 = rng.gen();
        assert_eq!(bits_to_u32(wrapping_add(word(x), word(y))), x.wrapping_add(y));
    }
}

#[test]
fn wrapping_add_drops_the_last_carry() {
    assert_eq!(bits_to_u32(wrapping_add(word(u32::MAX), word(1))), 0);
    assert_eq!(
        bits_to_u32(wrapping_add(word(u32::MAX), word(u32::MAX))),
        u32::MAX - 1
    );
    assert_eq!(
        bits_to_u32(wrapping_add(word(0x8000_0000), word(0x8000_0000))),
        0
    );
    assert_eq!(bits_to_u32(wrapping_add(word(0), word(0))), 0);
    assert_eq!(bits_to_u32(wrapping_add(word(1), word(1))), 2);
    assert_eq!(limbs_of(wrapping_add(word(3), word(1)))[29..], [1, 0, 0]);
}

#[test]
fn bits_to_u32_reads_big_endian() {
    assert_eq!(bits_to_u32(word(0x80000001)), 0x80000001);
    let mut w = [fp(0); 32];
    w[31] = fp(1);
    assert_eq!(bits_to_u32(w), 1);
    w[0] = fp(1);
    assert_eq!(bits_to_u32(w), 0x80000001);
    // Anything but zero counts as a set digit.
    w[30] = fp(9);
    assert_eq!(bits_to_u32(w), 0x80000003);
}

#[test]
fn encode_word_and_bits_to_u32_are_inverse() {
    let mut rng = rand::thread_rng();
    for _ in 0..20 {
        let x: u32 = rng.gen();
        assert_eq!(bits_to_u32(word(x)), x);
        assert_eq!(
            limbs_of(word(x)),
            to_bits_be::<32>(x as u64).iter().map(|b| *b as u64).collect::<Vec<u64>>()
        );
    }
}

#[test]
fn digest_to_hex_writes_eight_digits_to_a_word() {
    let mut state = [word(0); 8];
    state[0] = word(0x0000000a);
    state[1] = word(0xdeadbeef);
    state[7] = word(0x01234567);
    assert_eq!(
        digest_to_hex(state),
        "0000000adeadbeef000000000000000000000000000000000000000001234567"
    );
    assert_eq!(
        digest_to_hex([word(0x89abcdef); 8]),
        "89abcdef".repeat(8)
    );
}

#[test]
fn constants_are_those_of_sha256() {
    let h = initial_state::<Fp>();
    assert_eq!(bits_to_u32(h[0]), 0x6a09e667);
    assert_eq!(bits_to_u32(h[7]), 0x5be0cd19);
    assert_eq!(
        digest_to_hex(h),
        "6a09e667bb67ae853c6ef372a54ff53a510e527f9b05688c1f83d9ab5be0cd19"
    );
    let k = round_constants::<Fp>();
    assert_eq!(bits_to_u32(k[0]), 0x428a2f98);
    assert_eq!(bits_to_u32(k[1]), 0x71374491);
    assert_eq!(bits_to_u32(k[31]), 0x14292967);
    assert_eq!(bits_to_u32(k[63]), 0xc67178f2);
}

#[test]
fn field_elements_are_canonical() {
    assert!(Fp::from_limbs(MODULUS).is_none());
    assert!(Fp::from_limbs([u64::MAX; 4]).is_none());
    assert!(Fp::from_limbs([0, 0, 0, 0x4000000000000001]).is_none());
    let top = Fp::from_limbs(MODULUS_MINUS_ONE).unwrap();
    assert_eq!(top.to_limbs(), MODULUS_MINUS_ONE);
    assert_eq!(Fp::from_limbs([5, 6, 7, 8]).unwrap().to_limbs(), [5, 6, 7, 8]);
}

#[test]
fn field_identities_and_small_numbers() {
    assert_eq!(Fp::zero().to_limbs(), [0, 0, 0, 0]);
    assert_eq!(Fp::one().to_limbs(), [1, 0, 0, 0]);
    assert_eq!(Fp::from_u8(0).to_limbs(), [0, 0, 0, 0]);
    assert_eq!(Fp::from_u8(2).to_limbs(), [2, 0, 0, 0]);
    assert_eq!(Fp::from_u8(255).to_limbs(), [255, 0, 0, 0]);
}

#[test]
fn field_arithmetic_is_modular() {
    let top = Fp::from_limbs(MODULUS_MINUS_ONE).unwrap();
    assert_eq!(fp(3).plus(fp(4)).to_limbs(), [7, 0, 0, 0]);
    assert_eq!(top.plus(fp(1)).to_limbs(), [0, 0, 0, 0]);
    assert_eq!(top.plus(fp(3)).to_limbs(), [2, 0, 0, 0]);
    assert_eq!(fp(9).minus(fp(4)).to_limbs(), [5, 0, 0, 0]);
    assert_eq!(fp(0).minus(fp(1)).to_limbs(), MODULUS_MINUS_ONE);
    assert_eq!(fp(6).times(fp(7)).to_limbs(), [42, 0, 0, 0]);
    assert_eq!(top.times(top).to_limbs(), [1, 0, 0, 0]);
    assert_eq!(top.times(fp(2)).to_limbs(), [MODULUS[0] - 2, MODULUS[1], 0, MODULUS[3]]);
    let big = Fp::from_limbs([0, 1, 0, 0]).unwrap();
    assert_eq!(big.times(big).to_limbs(), [0, 0, 1, 0]);
    assert_eq!(
        Fp::from_limbs([u64::MAX, 0, 0, 0]).unwrap().plus(fp(1)).to_limbs(),
        [0, 1, 0, 0]
    );
}

#[test]
fn field_comparisons_go_by_the_representative() {
    let top = Fp::from_limbs(MODULUS_MINUS_ONE).unwrap();
    assert!(fp(2).at_least(fp(2)));
    assert!(fp(3).at_least(fp(2)));
    assert!(!fp(1).at_least(fp(2)));
    assert!(top.at_least(fp(2)));
    assert!(!fp(2).at_least(top));
    assert!(Fp::from_limbs([0, 1, 0, 0]).unwrap().at_least(fp(u64::MAX)));
    assert!(fp(5).equals(fp(5)));
    assert!(!fp(5).equals(fp(6)));
    assert!(fp(0).equals(Fp::zero()));
    assert!(top.plus(fp(1)).equals(Fp::zero()));
}

#[test]
fn errors_describe_themselves() {
    assert_eq!(HashError::DecodeError.message(), "Invalid hex.");
    assert_eq!(
        HashError::CapacityError.message(),
        "The capacity cannot hold the padded message."
    );
    assert_eq!(
        HashError::ChunkSizeInvariant.message(),
        "Chunk must be 512 bits."
    );
    assert_eq!(
        HashError::AlignmentInvariant.message(),
        "Input must be padded to 512-bit blocks."
    );
    assert_eq!(from_hex("xy").unwrap_err().message(), "Invalid hex.");
}

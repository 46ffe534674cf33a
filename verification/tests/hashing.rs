use ark_ff::{BigInteger, PrimeField, UniformRand};
use ark_pallas::Fq;
use field_sha256::constants::{initial_state, round_constants};
use field_sha256::dynamic_sha256::DynamicSha256;
use field_sha256::error::HashError;
use field_sha256::native_sha256::NativeSha256;
use field_sha256::pallas::Fp;
use field_sha256::sha_helpers::{digest_to_hex, from_bytes, from_hex, sha256_pad};
use rand::rngs::StdRng;
use rand::{Rng, SeedableRng};
use sha2::{Digest, Sha256};

fn make_test_rng() -> StdRng {
    let seed: [u8; 32] = rand::thread_rng().gen();
    println!("Seed: {:?}", seed);
    StdRng::from_seed(seed)
}

fn field_to_hex(x: Fq) -> String {
    hex::encode(x.into_bigint().to_bytes_le())
}

fn dynamic_digest(hex_text: &str, max_bits: usize) -> (String, usize) {
    let bits = from_hex(hex_text).unwrap();
    let (padded, digest_index) = sha256_pad(bits, max_bits).unwrap();
    let digest = DynamicSha256::<Fp>::new(padded, digest_index, None).hash().unwrap();
    (digest_to_hex(digest), digest_index)
}

fn native_digest(hex_text: &str, max_bits: usize) -> (String, usize) {
    let bits = from_hex(hex_text).unwrap();
    let (padded, digest_index) = sha256_pad(bits, max_bits).unwrap();
    let digest = NativeSha256::<Fp>::new(padded).hash().unwrap();
    (digest_to_hex(digest), digest_index)
}

fn reference_digest(hex_text: &str) -> String {
    let bytes = hex::decode(hex_text).unwrap();
    hex::encode(Sha256::digest(&bytes))
}

#[test]
fn dynamic_sha256_test() {
    // === Test 1: SHA256 of a zero byte ===
    let zero_bits = from_hex("00").unwrap();
    let (padded, digest_index) = sha256_pad(zero_bits, 512).unwrap();
    let zero_hash = DynamicSha256::<Fp>::new(padded, digest_index, None).hash().unwrap();
    let zero_hash_hex = digest_to_hex(zero_hash);

    let zero_std = Sha256::digest(&[0u8]);
    let zero_std_hex = hex::encode(zero_std);

    assert_eq!(zero_hash_hex, zero_std_hex, "Mismatch on 0x00.");

    // === Test 2: SHA256 of two random field elements ===
    let mut rng = make_test_rng();
    let first_random = Fq::rand(&mut rng);
    let second_random = Fq::rand(&mut rng);
    let first_random_hex = field_to_hex(first_random);
    let second_random_hex = field_to_hex(second_random);
    let concatenated = format!("{}{}", first_random_hex, second_random_hex);

    let bits = from_hex(&concatenated).unwrap();
    let (padded, digest_index) = sha256_pad(bits, 1024).unwrap();
    let hash_index = 960;
    let dynamic_hash = DynamicSha256::<Fp>::new(padded, digest_index, None).hash().unwrap();
    let dynamic_hash_hex = digest_to_hex(dynamic_hash);

    let bytes = hex::decode(&concatenated).unwrap();
    let std_hash = Sha256::digest(&bytes);
    let std_hash_hex = hex::encode(std_hash);

    assert_eq!(
        hash_index, digest_index,
        "Mismatch between hash index and expected hash index."
    );

    assert_eq!(
        dynamic_hash_hex, std_hash_hex,
        "Mismatch between dynamic and standard SHA256."
    );

    // === Test 3: SHA256 of four random field elements ===
    let rand_numbers = [
        Fq::rand(&mut rng),
        Fq::rand(&mut rng),
        Fq::rand(&mut rng),
        Fq::rand(&mut rng),
    ];
    let rand_numbers_hex: Vec<String> = rand_numbers.iter().map(|num| field_to_hex(*num)).collect();
    let merged_hex: String = rand_numbers_hex
        .iter()
        .flat_map(|num| num.chars())
        .collect();

    let bits = from_hex(&merged_hex).unwrap();
    let (padded, digest_index) = sha256_pad(bits, 1536).unwrap();
    let hash_index = 1472;
    let dynamic_hash = DynamicSha256::<Fp>::new(padded, digest_index, None).hash().unwrap();
    let dynamic_hash_hex = digest_to_hex(dynamic_hash);

    let bytes = hex::decode(&merged_hex).unwrap();
    let std_hash = Sha256::digest(&bytes);
    let std_hash_hex = hex::encode(std_hash);

    assert_eq!(
        hash_index, digest_index,
        "Mismatch between hash index and expected hash index."
    );

    assert_eq!(
        dynamic_hash_hex, std_hash_hex,
        "Mismatch between dynamic and standard SHA256."
    );
}

#[test]
fn native_sha256_test() {
    // === Test 1: SHA256 of a zero byte ===
    let zero_bits = from_hex("00").unwrap();
    let (padded, _) = sha256_pad(zero_bits, 512).unwrap();
    let zero_hash = NativeSha256::<Fp>::new(padded).hash().unwrap();
    let zero_hash_hex = digest_to_hex(zero_hash);

    let zero_std = Sha256::digest(&[0u8]);
    let zero_std_hex = hex::encode(zero_std);

    assert_eq!(zero_hash_hex, zero_std_hex, "Mismatch on 0x00.");

    // === Test 2: SHA256 of two random field elements ===
    let mut rng = make_test_rng();
    let first_random = Fq::rand(&mut rng);
    let second_random = Fq::rand(&mut rng);
    let first_random_hex = field_to_hex(first_random);
    let second_random_hex = field_to_hex(second_random);
    let concatenated = format!("{}{}", first_random_hex, second_random_hex);

    let bits = from_hex(&concatenated).unwrap();
    let (padded, digest_index) = sha256_pad(bits, 1024).unwrap();
    let hash_index = 960;
    let native_hash = NativeSha256::<Fp>::new(padded).hash().unwrap();
    let native_hash_hex = digest_to_hex(native_hash);

    let bytes = hex::decode(&concatenated).unwrap();
    let std_hash = Sha256::digest(&bytes);
    let std_hash_hex = hex::encode(std_hash);

    assert_eq!(
        hash_index, digest_index,
        "Mismatch between hash index and expected hash index."
    );

    assert_eq!(
        native_hash_hex, std_hash_hex,
        "Mismatch between native and standard SHA256."
    );

    // === Test 3: SHA256 of four random field elements ===
    let rand_numbers = [
        Fq::rand(&mut rng),
        Fq::rand(&mut rng),
        Fq::rand(&mut rng),
        Fq::rand(&mut rng),
    ];
    let rand_numbers_hex: Vec<String> = rand_numbers.iter().map(|num| field_to_hex(*num)).collect();
    let merged_hex: String = rand_numbers_hex
        .iter()
        .flat_map(|num| num.chars())
        .collect();

    let bits = from_hex(&merged_hex).unwrap();
    let (padded, digest_index) = sha256_pad(bits, 1536).unwrap();
    let hash_index = 1472;
    let native_hash = NativeSha256::<Fp>::new(padded).hash().unwrap();
    let native_hash_hex = digest_to_hex(native_hash);

    let bytes = hex::decode(&merged_hex).unwrap();
    let std_hash = Sha256::digest(&bytes);
    let std_hash_hex = hex::encode(std_hash);

    assert_eq!(
        hash_index, digest_index,
        "Mismatch between hash index and expected hash index."
    );

    assert_eq!(
        native_hash_hex, std_hash_hex,
        "Mismatch between native and standard SHA256."
    );
}

#[test]
fn zero_byte_has_the_known_digest() {
    let (digest, index) = dynamic_digest("00", 512);
    assert_eq!(index, 448);
    assert_eq!(
        digest,
        "6e340b9cffb37a989ca544e6bb780a2c78901d3fb33738768511a30617afa01d"
    );
}

#[test]
fn empty_message_has_the_known_digest() {
    let (digest, index) = native_digest("", 512);
    assert_eq!(index, 448);
    assert_eq!(
        digest,
        "e3b0c44298fc1c149afbf4c8996fb92427ae41e4649b934ca495991b7852b855"
    );
}

#[test]
fn abc_has_the_known_digest() {
    let (digest, _) = dynamic_digest("616263", 512);
    assert_eq!(
        digest,
        "ba7816bf8f01cfea414140de5dae2223b00361a396177a9cb410ff61f20015ad"
    );
}

#[test]
fn two_block_message_has_the_known_digest() {
    // "abcdbcdecdefdefgefghfghighijhijkijkljklmklmnlmnomnopnopq"
    let text = "6162636462636465636465666465666765666768666768696768696a68696a6b\
                696a6b6c6a6b6c6d6b6c6d6e6c6d6e6f6d6e6f706e6f7071";
    let (digest, index) = native_digest(text, 1024);
    assert_eq!(index, 960);
    assert_eq!(
        digest,
        "248d6a61d20638b8e5c026930c3e6039a33ce45964ff2167f6ecedd419db06c1"
    );
    assert_eq!(digest, reference_digest(text));
}

#[test]
fn message_that_fills_a_block_spills_into_the_next() {
    // 56 bytes leave no room for the marker and the length field.
    let text = "00".repeat(56);
    let bits = from_hex(&text).unwrap();
    assert_eq!(sha256_pad(bits.clone(), 512), Err(HashError::CapacityError));
    let (digest, index) = dynamic_digest(&text, 1024);
    assert_eq!(index, 960);
    assert_eq!(digest, reference_digest(&text));
}

#[test]
fn both_modes_give_the_same_digest() {
    let mut rng = make_test_rng();
    for blocks in 1..4usize {
        let text: String = (0..blocks).map(|_| field_to_hex(Fq::rand(&mut rng))).collect();
        let max_bits = 512 * (blocks * 256 / 512 + 1);
        let (dynamic, dynamic_index) = dynamic_digest(&text, max_bits);
        let (native, native_index) = native_digest(&text, max_bits);
        assert_eq!(dynamic, native);
        assert_eq!(dynamic_index, native_index);
        assert_eq!(dynamic, reference_digest(&text));
    }
}

#[test]
fn filler_chunks_change_the_digest_but_not_the_mode_equivalence() {
    let bits = from_hex("616263").unwrap();
    let (padded, index) = sha256_pad(bits, 1024).unwrap();
    assert_eq!(index, 448);
    let dynamic = DynamicSha256::<Fp>::new(padded.clone(), index, None).hash().unwrap();
    let native = NativeSha256::<Fp>::new(padded).hash().unwrap();
    let dynamic_hex = digest_to_hex(dynamic);
    assert_eq!(dynamic_hex, digest_to_hex(native));
    assert_ne!(
        dynamic_hex,
        "ba7816bf8f01cfea414140de5dae2223b00361a396177a9cb410ff61f20015ad"
    );
}

#[test]
fn hashing_can_resume_from_an_intermediate_state() {
    let text = "6162636462636465636465666465666765666768666768696768696a68696a6b\
                696a6b6c6a6b6c6d6b6c6d6e6c6d6e6f6d6e6f706e6f7071";
    let bits = from_hex(text).unwrap();
    let (padded, index) = sha256_pad(bits, 1024).unwrap();
    let whole = DynamicSha256::<Fp>::new(padded.clone(), index, None).hash().unwrap();

    let first = DynamicSha256::<Fp>::new(padded[..512].to_vec(), index, None).hash().unwrap();
    let second = DynamicSha256::<Fp>::new(padded[512..].to_vec(), index, Some(first))
        .hash()
        .unwrap();
    assert_eq!(digest_to_hex(whole), digest_to_hex(second));
    assert_eq!(
        digest_to_hex(second),
        "248d6a61d20638b8e5c026930c3e6039a33ce45964ff2167f6ecedd419db06c1"
    );

    // Feeding the chunks in the other order gives something else.
    let wrong_first =
        DynamicSha256::<Fp>::new(padded[512..].to_vec(), index, None).hash().unwrap();
    let wrong = DynamicSha256::<Fp>::new(padded[..512].to_vec(), index, Some(wrong_first))
        .hash()
        .unwrap();
    assert_ne!(digest_to_hex(whole), digest_to_hex(wrong));
}

#[test]
fn chunks_can_be_processed_one_by_one() {
    let bits = from_hex("616263").unwrap();
    let (padded, index) = sha256_pad(bits, 512).unwrap();
    let k = round_constants::<Fp>();

    let mut dynamic = DynamicSha256::<Fp>::new(Vec::new(), index, None);
    assert_eq!(dynamic.process_chunk(&padded, k), Ok(()));
    let digest = dynamic.hash().unwrap();
    assert_eq!(
        digest_to_hex(digest),
        "ba7816bf8f01cfea414140de5dae2223b00361a396177a9cb410ff61f20015ad"
    );

    let mut native = NativeSha256::<Fp>::new(Vec::new());
    let mut state = initial_state::<Fp>();
    assert_eq!(native.process_chunk(&padded, &mut state, k), Ok(()));
    assert_eq!(
        digest_to_hex(state),
        "ba7816bf8f01cfea414140de5dae2223b00361a396177a9cb410ff61f20015ad"
    );
}

#[test]
fn chunk_of_the_wrong_size_is_refused() {
    let k = round_constants::<Fp>();
    let mut state = initial_state::<Fp>();
    let before = digest_to_hex(state);
    let mut native = NativeSha256::<Fp>::new(Vec::new());
    assert_eq!(
        native.process_chunk(&[0u8; 511], &mut state, k),
        Err(HashError::ChunkSizeInvariant)
    );
    assert_eq!(
        native.process_chunk(&[0u8; 513], &mut state, k),
        Err(HashError::ChunkSizeInvariant)
    );
    assert_eq!(digest_to_hex(state), before);
    let mut dynamic = DynamicSha256::<Fp>::new(Vec::new(), 0, None);
    assert_eq!(
        dynamic.process_chunk(&[], k),
        Err(HashError::ChunkSizeInvariant)
    );
}

#[test]
fn misaligned_preimage_is_refused() {
    let dynamic = DynamicSha256::<Fp>::new(vec![0u8; 511], 0, None).hash();
    assert!(matches!(dynamic, Err(HashError::AlignmentInvariant)));
    let native = NativeSha256::<Fp>::new(vec![1u8; 1000]).hash();
    assert!(matches!(native, Err(HashError::AlignmentInvariant)));
}

#[test]
fn empty_preimage_leaves_the_initial_state() {
    let digest = NativeSha256::<Fp>::new(Vec::new()).hash().unwrap();
    assert_eq!(
        digest_to_hex(digest),
        "6a09e667bb67ae853c6ef372a54ff53a510e527f9b05688c1f83d9ab5be0cd19"
    );
    let same = DynamicSha256::<Fp>::new(Vec::new(), 0, None).hash().unwrap();
    assert_eq!(digest_to_hex(same), digest_to_hex(digest));
}

#[test]
fn raw_bytes_hash_like_their_hexadecimal_text() {
    assert_eq!(from_bytes(&[0xa5, 0x01]), from_hex("a501").unwrap());
    assert_eq!(from_bytes(&[]), Vec::<u8>::new());
    let mut rng = make_test_rng();
    let bytes: Vec<u8> = (0..100).map(|_| rng.gen()).collect();
    let bits = from_bytes(&bytes);
    assert_eq!(bits.len(), 800);
    let (padded, index) = sha256_pad(bits, 1024).unwrap();
    assert_eq!(index, 960);
    let digest = NativeSha256::<Fp>::new(padded).hash().unwrap();
    assert_eq!(digest_to_hex(digest), hex::encode(Sha256::digest(&bytes)));
}

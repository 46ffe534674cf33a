//! What holds of the library as a whole: agreement with SHA-256, the
//! truth tables, rotation, modular addition, and the two ways of hashing.
use crate::algebra_spec::{
    bit_and, bit_not, bit_xor, field_add, field_and, field_not, field_xor, lemma_field_and_bits,
    lemma_field_not_bits, lemma_field_xor_bits, rotate_seq,
};
use crate::bits::{all_bits, is_bit_string, lemma_be_bits_are_bits, word_value};
use crate::compress_lemmas::{is_state, lemma_encode_words, lemma_hash_values};
use crate::compress_spec::{absorb, chunk_values, hash_values};
use crate::constants::{encode_words, initial_hash, round_constant_words};
use crate::dynamic_sha256::DynamicSha256;
use crate::field::{word_values, FieldElement};
use crate::native_sha256::NativeSha256;
use crate::padding_spec::{lemma_padding_layout, minimal_padded_len, pad_spec};
use crate::sha256_spec::sha256;
use crate::sha_helpers::{bytes_to_bits, digest_hex, digest_words, lemma_digest_words_of_bits};
use crate::word_lemmas::{is_word, lemma_add_word, words_of};
use vstd::arithmetic::div_mod::{
    lemma_fundamental_div_mod, lemma_mod_multiples_vanish, lemma_small_mod,
};
use vstd::prelude::*;

verus! {

/// The binary digits of a sequence of bytes are binary digits.
pub proof fn lemma_bytes_to_bits(bytes: Seq<u8>)
    ensures
        is_bit_string(bytes_to_bits(bytes)),
        bytes_to_bits(bytes).len() == 8 * bytes.len(),
{
    let b = bytes_to_bits(bytes);
    assert forall|j: int| 0 <= j < b.len() implies #[trigger] b[j] <= 1 by {
        lemma_be_bits_are_bits(bytes[j / 8] as nat, 8);
    }
}

/// Hashing a message of binary digits that was padded to its minimal
/// length, from the initial hash value and over any field, gives SHA-256
/// of the message, as words and as hexadecimal text.
pub proof fn lemma_minimal_padding_gives_sha256<F: FieldElement>(message: Seq<u8>)
    requires
        is_bit_string(message),
    ensures
        ({
            let padded = pad_spec(message, minimal_padded_len(message.len()));
            let digest = hash_values(encode_words(initial_hash()), padded, F::modulus());
            &&& is_state(digest)
            &&& words_of(digest) == sha256(message)
            &&& digest_hex(digest_words(digest)) == digest_hex(sha256(message))
        }),
{
    let cap = minimal_padded_len(message.len());
    let padded = pad_spec(message, cap);
    F::lemma_modulus_large();
    lemma_padding_layout(message, cap);
    lemma_encode_words(initial_hash());
    lemma_hash_values(encode_words(initial_hash()), padded, F::modulus());
    lemma_digest_words_of_bits(hash_values(encode_words(initial_hash()), padded, F::modulus()));
}

/// For every string of bytes: hashing its binary digits, padded to their
/// minimal length, from the initial hash value and over any field, gives
/// SHA-256 of the bytes.
pub proof fn lemma_oracle_equivalence<F: FieldElement>(bytes: Seq<u8>)
    ensures
        ({
            let message = bytes_to_bits(bytes);
            let padded = pad_spec(message, minimal_padded_len(message.len()));
            let digest = hash_values(encode_words(initial_hash()), padded, F::modulus());
            &&& words_of(digest) == sha256(message)
            &&& digest_hex(digest_words(digest)) == digest_hex(sha256(message))
        }),
{
    lemma_bytes_to_bits(bytes);
    lemma_minimal_padding_gives_sha256::<F>(bytes_to_bits(bytes));
}

/// On binary digits, over any field, the field expressions for AND, XOR
/// and NOT follow the truth tables.
pub proof fn lemma_truth_tables<F: FieldElement>(a: Seq<nat>, b: Seq<nat>)
    requires
        a.len() == b.len(),
        all_bits(a),
        all_bits(b),
    ensures
        field_and(a, b, F::modulus()) == bit_and(a, b),
        field_xor(a, b, F::modulus()) == bit_xor(a, b),
        field_not(a, F::modulus()) == bit_not(a),
        all_bits(bit_and(a, b)) && all_bits(bit_xor(a, b)) && all_bits(bit_not(a)),
{
    F::lemma_modulus_large();
    lemma_field_and_bits(a, b, F::modulus());
    lemma_field_xor_bits(a, b, F::modulus());
    lemma_field_not_bits(a, F::modulus());
}

/// On words of binary digits, over any field, the digit-serial addition
/// is addition modulo 2^32: a carry out of the first digit is dropped.
pub proof fn lemma_wrapping_add_is_modular<F: FieldElement>(a: Seq<nat>, b: Seq<nat>)
    requires
        is_word(a),
        is_word(b),
    ensures
        is_word(field_add(a, b, F::modulus())),
        word_value(field_add(a, b, F::modulus())) == (word_value(a) + word_value(b))
            % 0x1_0000_0000,
{
    F::lemma_modulus_large();
    lemma_add_word(a, b, F::modulus());
    crate::algebra_spec::lemma_field_add_bits(a, b, F::modulus());
    vstd::arithmetic::power2::lemma2_to64();
}

/// A rotation moves the entry at index `i` to index `(i + rot) mod n`.
pub proof fn lemma_rotate_moves_index<T>(s: Seq<T>, rot: nat, i: int)
    requires
        0 <= i < s.len(),
    ensures
        0 <= (i + rot) % (s.len() as int) < s.len(),
        rotate_seq(s, rot)[(i + rot) % (s.len() as int)] == s[i],
{
    let n = s.len() as int;
    let q = (i + rot) / n;
    let j = (i + rot) % n;
    lemma_fundamental_div_mod(i + rot, n);
    assert(j - rot == n * (-q) + i) by (nonlinear_arith)
        requires
            i + rot == n * q + j,
    ;
    lemma_mod_multiples_vanish(-q, i, n);
    lemma_small_mod(i as nat, n as nat);
}

/// A rotation sends different indices to different indices, so it is a
/// bijection on the positions of a word.
pub proof fn lemma_rotate_is_injective(n: nat, rot: nat, i: int, j: int)
    requires
        0 <= i < n,
        0 <= j < n,
        (i + rot) % (n as int) == (j + rot) % (n as int),
    ensures
        i == j,
{
    let m = n as int;
    lemma_fundamental_div_mod(i + rot, m);
    lemma_fundamental_div_mod(j + rot, m);
    let (qi, qj) = ((i + rot) / m, (j + rot) / m);
    assert(i - j == m * (qi - qj)) by (nonlinear_arith)
        requires
            i + rot == m * qi + (i + rot) % m,
            j + rot == m * qj + (j + rot) % m,
            (i + rot) % m == (j + rot) % m,
    ;
    assert(qi == qj) by (nonlinear_arith)
        requires
            i - j == m * (qi - qj),
            -m < i - j < m,
            m > 0,
    ;
    assert(m * (qi - qj) == 0) by (nonlinear_arith)
        requires
            qi == qj,
    ;
}

/// Rotating by the length of the sequence changes nothing, and rotating
/// by `rot` plus the length is rotating by `rot`: on words the rotation
/// has period 32.
pub proof fn lemma_rotate_period<T>(s: Seq<T>, rot: nat)
    ensures
        rotate_seq(s, s.len()) == s,
        rotate_seq(s, rot + s.len()) == rotate_seq(s, rot),
{
    let n = s.len() as int;
    assert forall|j: int| 0 <= j < n implies rotate_seq(s, s.len())[j] == s[j] by {
        lemma_mod_multiples_vanish(-1, j, n);
        lemma_small_mod(j as nat, n as nat);
    }
    assert(rotate_seq(s, s.len()) =~= s);
    assert forall|j: int| 0 <= j < n implies rotate_seq(s, rot + s.len())[j] == rotate_seq(
        s,
        rot,
    )[j] by {
        lemma_mod_multiples_vanish(-1, j - rot, n);
    }
    assert(rotate_seq(s, rot + s.len()) =~= rotate_seq(s, rot));
}

/// Rotating twice is rotating once by the sum.
pub proof fn lemma_rotate_twice<T>(s: Seq<T>, first: nat, second: nat)
    ensures
        rotate_seq(rotate_seq(s, first), second) == rotate_seq(s, first + second),
{
    let n = s.len() as int;
    let both = rotate_seq(rotate_seq(s, first), second);
    assert forall|j: int| 0 <= j < n implies both[j] == rotate_seq(s, first + second)[j] by {
        let q = (j - second) / n;
        let r = (j - second) % n;
        lemma_fundamental_div_mod(j - second, n);
        vstd::arithmetic::div_mod::lemma_mod_bound(j - second, n);
        assert(r - first == n * (-q) + (j - (first + second))) by (nonlinear_arith)
            requires
                j - second == n * q + r,
        ;
        lemma_mod_multiples_vanish(-q, j - (first + second), n);
    }
    assert(both =~= rotate_seq(s, first + second));
}

/// Started from the initial hash value, the hasher that carries its state
/// and the hasher that does not give the same digest for the same padded
/// preimage.
pub proof fn lemma_mode_equivalence<F: FieldElement>(
    resumable: DynamicSha256<F>,
    one_shot: NativeSha256<F>,
)
    requires
        word_values(resumable.state()) == encode_words(initial_hash()),
        resumable.preimage() == one_shot.preimage(),
    ensures
        resumable.digest() == one_shot.digest(),
{
}

/// The state after `n` chunks depends on the first `512 * n` digits of
/// the preimage only.
pub proof fn lemma_absorb_prefix(
    state: Seq<Seq<nat>>,
    ks: Seq<Seq<nat>>,
    p: Seq<u8>,
    q: Seq<u8>,
    m: nat,
    n: nat,
)
    requires
        512 * n <= p.len(),
        512 * n <= q.len(),
        p.subrange(0, (512 * n) as int) == q.subrange(0, (512 * n) as int),
    ensures
        absorb(state, ks, p, m, n) == absorb(state, ks, q, m, n),
    decreases n,
{
    if n > 0 {
        let k = (n - 1) as nat;
        assert(p.subrange(0, (512 * k) as int) =~= p.subrange(0, (512 * n) as int).subrange(0, (512 * k) as int));
        assert(q.subrange(0, (512 * k) as int) =~= q.subrange(0, (512 * n) as int).subrange(0, (512 * k) as int));
        lemma_absorb_prefix(state, ks, p, q, m, k);
        assert(p.subrange((512 * k) as int, (512 * k) as int + 512) =~= p.subrange(0, (512 * n) as int).subrange(
            (512 * k) as int,
            (512 * k) as int + 512,
        ));
        assert(q.subrange((512 * k) as int, (512 * k) as int + 512) =~= q.subrange(0, (512 * n) as int).subrange(
            (512 * k) as int,
            (512 * k) as int + 512,
        ));
        assert(chunk_values(p, m, k as int) == chunk_values(q, m, k as int));
    }
}

/// Absorbing the chunks of `head + tail` is absorbing those of `head` and
/// then, from the state that this left, those of `tail`.
pub proof fn lemma_absorb_resumes(
    state: Seq<Seq<nat>>,
    ks: Seq<Seq<nat>>,
    head: Seq<u8>,
    tail: Seq<u8>,
    m: nat,
    n: nat,
)
    requires
        head.len() % 512 == 0,
        512 * n <= tail.len(),
    ensures
        absorb(state, ks, head + tail, m, head.len() / 512 + n) == absorb(
            absorb(state, ks, head, m, head.len() / 512),
            ks,
            tail,
            m,
            n,
        ),
    decreases n,
{
    let h = head.len() / 512;
    let whole = head + tail;
    if n == 0 {
        assert(whole.subrange(0, (512 * h) as int) =~= head.subrange(0, (512 * h) as int));
        lemma_absorb_prefix(state, ks, whole, head, m, h);
    } else {
        let k = (n - 1) as nat;
        lemma_absorb_resumes(state, ks, head, tail, m, k);
        assert(whole.subrange((512 * (h + k)) as int, (512 * (h + k)) as int + 512) =~= tail.subrange(
            (512 * k) as int,
            (512 * k) as int + 512,
        ));
        assert(chunk_values(whole, m, (h + k) as int) == chunk_values(tail, m, k as int));
    }
}

/// Hashing a preimage of several chunks in one go gives the same digest
/// as hashing its first chunks and then, from the state that this left,
/// the chunks that follow, in their order.
pub proof fn lemma_multi_chunk_consistency<F: FieldElement>(
    state: Seq<Seq<nat>>,
    head: Seq<u8>,
    tail: Seq<u8>,
)
    requires
        head.len() % 512 == 0,
    ensures
        hash_values(state, head + tail, F::modulus()) == hash_values(
            hash_values(state, head, F::modulus()),
            tail,
            F::modulus(),
        ),
{
    let ks = encode_words(round_constant_words());
    let n = tail.len() / 512;
    assert((head + tail).len() / 512 == head.len() / 512 + n);
    lemma_absorb_resumes(state, ks, head, tail, F::modulus(), n);
}

} // verus!

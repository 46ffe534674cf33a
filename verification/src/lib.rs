//! SHA-256 computed bit by bit over the elements of a prime field.
//!
//! Every intermediate value of the hash is an array of field elements, each
//! standing for one binary digit. The boolean operations and the addition
//! modulo 2^32 are carried out with the ring operations of the field alone,
//! and the result is proved to agree, word for word, with SHA-256 as it is
//! defined on 32-bit machine words.
pub mod algebra_spec;
pub mod bits;
pub mod compress_lemmas;
pub mod compress_spec;
pub mod compression;
pub mod constants;
pub mod dynamic_sha256;
pub mod error;
pub mod field;
pub mod laws;
pub mod mersenne;
pub mod native_sha256;
pub mod padding_spec;
pub mod pallas;
pub mod sha256_spec;
pub mod sha_helpers;
pub mod word_lemmas;

//! NAPQES: an HMAC-SHA256-based authenticated encryption scheme whose
//! ciphertexts interleave key-derived noise tokens with arithmetic tokens
//! `c * k + a` over a tuple of primes.
//!
//! * v8 (normative): synthetic nonce, format subkey, capped noise runs and a
//!   fixed token count per padding bucket; block (`aead`) and streaming
//!   (`stream`) formats.
//! * v7 (legacy, `legacy`): random nonce, uncapped noise runs; kept to read
//!   archived ciphertexts.
//!
//! Key order is a security parameter: `[k0, k1]` and `[k1, k0]` are different
//! keys.
pub mod aead;
pub mod base64_text;
pub mod bytes;
pub mod chars;
pub mod derive;
pub mod gateway;
pub mod gf2;
pub mod kem;
pub mod kem_exchange;
pub mod kem_primitives;
pub mod lfsr;
pub mod key;
pub mod key_file;
pub mod legacy;
pub mod ot_frame;
pub mod padding;
pub mod primes;
pub mod primitives;
pub mod protocols;
pub mod rounding;
pub mod self_test;
pub mod stream;
pub mod sts_bits;
pub mod text;
pub mod tokens;

pub use aead::{
    decrypt_bytes_v8, decrypt_core_v8, encrypt_bytes_v8, encrypt_bytes_v8_with_profile,
    zeroize_key, zeroize_sk, FORMAT_BLOCK_V8, FORMAT_STREAM_AE_V8, SK_SIZE,
};
pub use derive::{ASCII_PRINTABLE_BASE, NOISE_ALPHABET, NONCE_SIZE, PAD_ALPHABET, TAG_SIZE};
pub use kem::{
    decapsulate, decapsulate_hybrid, derive_napqes_key, derive_napqes_key_hybrid, encapsulate,
    encapsulate_hybrid, hybrid_transcript, keygen, keygen_hybrid, FRODO_CIPHERTEXT_SIZE,
    FRODO_PUBLIC_KEY_SIZE, FRODO_SECRET_KEY_SIZE, HYBRID_CIPHERTEXT_SIZE, HYBRID_PUBLIC_KEY_SIZE,
    HYBRID_SECRET_KEY_SIZE, MAX_PRIME, MIN_PRIME, NAPQES_KEY_COUNT, X25519_KEY_SIZE,
};
pub use key::{
    decrypt_bytes_v8_key, encrypt_bytes_v8_key, encrypt_bytes_v8_with_profile_key,
    generate_v8_key, NapqesKey,
};
pub use legacy::{
    decrypt, decrypt_bytes, decrypt_core, decrypt_raw, decrypt_str, encrypt, encrypt_bytes,
    encrypt_bytes_with_nonce, encrypt_raw, encrypt_str,
};
pub use primitives::ct_eq_bytes;
pub use padding::{PadProfile, MAX_PLAINTEXT_CODEPOINTS, PAD_MAX_EXP, PAD_MIN_EXP};
pub use primes::{
    generate_prime_numbers, is_prime, validate_key, DEFAULT_KEY_COUNT, MAX_KEY_ELEMENTS,
    MAX_KEY_PRIME, MAX_SAFE_KEY_PRIME, MAX_SERIALISABLE_KEY_PRIME, MIN_KEY_PRIME,
};
pub use stream::{
    decrypt_stream_ae_v8, encrypt_stream_ae_v8, encrypt_stream_ae_v8_with_nonce,
    StreamV8Encryptor, STREAM_AE_V8_DEFAULT_FRAME, STREAM_AE_V8_MAX_FRAME,
};
pub use tokens::{MAX_NOISE_RUN, TOKEN_WIDTH};

use vstd::prelude::*;

verus! {

} // verus!

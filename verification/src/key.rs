//! `NapqesKey`: v8 key material validated once, at construction.
use crate::aead::{
    bytes_result, decrypt_bytes_v8_core, decrypt_v8_inner_spec, decrypt_v8_spec,
    encrypt_bytes_v8_core, encrypt_v8_inner_spec, encrypt_v8_spec, msg_ct_short, string_result, FORMAT_BLOCK_V8, SK_SIZE,
};
use crate::derive::{format_subkey, max_keystream_len};
use crate::padding::PadProfile;
use crate::primes::{
    drawn_primes, generate_prime_numbers, key_check, lemma_key_check_ok, prime, valid_key, validate_key,
    DEFAULT_KEY_COUNT, MAX_KEY_PRIME, MIN_KEY_PRIME,
};
use crate::primitives::random_32;
use vstd::prelude::*;

verus! {

/// The error of a key draw that ran out before `DEFAULT_KEY_COUNT` distinct
/// primes were found.
pub open spec fn msg_short_prime_draw() -> Seq<char> {
    "could not find 13 distinct primes in [1000000, 14999999] within 56000000 attempts"@
}

/// A prime tuple and an independently drawn 256-bit `sk`. The tuple always
/// passes key validation, so the `_key` entry points skip it.
pub struct NapqesKey {
    primes: Vec<u64>,
    sk: [u8; SK_SIZE],
}

impl NapqesKey {
    #[verifier::type_invariant]
    spec fn inv(self) -> bool {
        valid_key(self.primes@)
    }

    /// The prime tuple.
    pub closed spec fn primes_view(self) -> Seq<u64> {
        self.primes@
    }

    /// The subkey `sk`.
    pub closed spec fn sk_view(self) -> Seq<u8> {
        self.sk@
    }

    /// Validates `primes` once; refuses it exactly as key validation does.
    pub fn new(primes: Vec<u64>, sk: [u8; SK_SIZE]) -> (r: Result<Self, String>)
        ensures
            match r {
                Ok(k) => k.primes_view() == primes@ && k.sk_view() == sk@ && valid_key(primes@),
                Err(e) => key_check(primes@) == Err::<(), Seq<char>>(e@),
            },
    {
        match validate_key(primes.as_slice()) {
            Err(e) => Err(e),
            Ok(()) => Ok(NapqesKey { primes, sk }),
        }
    }

    /// Fresh key material: `DEFAULT_KEY_COUNT` primes drawn from
    /// `[MIN_KEY_PRIME, MAX_KEY_PRIME]` and a random `sk`; an error when the
    /// draws ran out before that many distinct primes were found.
    pub fn generate() -> (r: Result<Self, String>)
        ensures
            match r {
                Ok(k) => {
                    &&& valid_key(k.primes_view())
                    &&& k.primes_view().len() == DEFAULT_KEY_COUNT
                    &&& drawn_primes(
                        DEFAULT_KEY_COUNT as nat,
                        MIN_KEY_PRIME,
                        MAX_KEY_PRIME,
                        k.primes_view(),
                    )
                },
                Err(e) => {
                    &&& e@ == msg_short_prime_draw()
                    &&& exists|ps: Seq<u64>|
                        #[trigger] drawn_primes(DEFAULT_KEY_COUNT as nat, MIN_KEY_PRIME, MAX_KEY_PRIME, ps)
                            && ps.len() < DEFAULT_KEY_COUNT
                },
            },
    {
        let (primes, sk) = generate_v8_key(DEFAULT_KEY_COUNT, MIN_KEY_PRIME, MAX_KEY_PRIME);
        if primes.len() < DEFAULT_KEY_COUNT {
            return Err(
                String::from_str(
                    "could not find 13 distinct primes in [1000000, 14999999] within 56000000 attempts",
                ),
            );
        }
        proof {
            crate::primes::lemma_key_check_ok(primes@);
        }
        Self::new(primes, sk)
    }

    pub fn primes(&self) -> (r: &[u64])
        ensures
            r@ == self.primes_view(),
    {
        self.primes.as_slice()
    }

    pub fn sk(&self) -> (r: &[u8; SK_SIZE])
        ensures
            r@ == self.sk_view(),
    {
        &self.sk
    }

    /// Number of primes in the tuple.
    pub fn k(&self) -> (r: usize)
        ensures
            r == self.primes_view().len(),
    {
        self.primes.len()
    }
}

/// A v8 key pair: the primes that `generate_prime_numbers` finds (up to
/// `count` distinct primes drawn from `[min_val, max_val]`) and an
/// independent random 256-bit `sk`, of which nothing is claimed.
pub fn generate_v8_key(count: usize, min_val: u64, max_val: u64) -> (r: (Vec<u64>, [u8; SK_SIZE]))
    requires
        max_val > min_val,
    ensures
        r.0@.len() <= count,
        forall|i: int|
            0 <= i < r.0@.len() ==> prime(#[trigger] r.0@[i] as nat) && min_val <= r.0@[i]
                <= max_val,
        !crate::primes::has_duplicate(r.0@),
        crate::primes::drawn_primes(count as nat, min_val, max_val, r.0@),
{
    let primes = generate_prime_numbers(count, min_val, max_val);
    let sk = random_32();
    (primes, sk)
}

/// v8 encryption under a validated key (no per-message validation); byte
/// for byte the output of `encrypt_bytes_v8` on the same material.
pub fn encrypt_bytes_v8_key(message: &str, key: &NapqesKey, aad: &[u8]) -> (r: Result<
    Vec<u8>,
    String,
>)
    ensures
        bytes_result(r) == encrypt_v8_inner_spec(
            format_subkey(key.sk_view(), FORMAT_BLOCK_V8),
            key.primes_view(),
            aad@,
            message@,
            PadProfile::Bucket,
        ),
        bytes_result(r) == encrypt_v8_spec(
            key.primes_view(),
            key.sk_view(),
            aad@,
            message@,
            PadProfile::Bucket,
        ),
{
    proof {
        use_type_invariant(key);
        lemma_key_check_ok(key.primes_view());
    }
    encrypt_bytes_v8_core(message, key.primes.as_slice(), &key.sk, aad, PadProfile::Bucket)
}

/// v8 decryption under a validated key.
pub fn decrypt_bytes_v8_key(ciphertext: &[u8], key: &NapqesKey, aad: &[u8]) -> (r: Result<
    String,
    String,
>)
    requires
        ciphertext@.len() <= max_keystream_len(),
    ensures
        string_result(r) == (if ciphertext@.len() < 48 {
            Err(msg_ct_short(ciphertext@.len()))
        } else {
            decrypt_v8_inner_spec(
                format_subkey(key.sk_view(), FORMAT_BLOCK_V8),
                ciphertext@,
                key.primes_view(),
                aad@,
            )
        }),
        string_result(r) == decrypt_v8_spec(key.primes_view(), key.sk_view(), aad@, ciphertext@),
{
    proof {
        use_type_invariant(key);
        lemma_key_check_ok(key.primes_view());
    }
    decrypt_bytes_v8_core(ciphertext, key.primes.as_slice(), &key.sk, aad)
}

/// v8 encryption with an explicit padding profile under a validated key.
pub fn encrypt_bytes_v8_with_profile_key(
    message: &str,
    key: &NapqesKey,
    aad: &[u8],
    pad_profile: PadProfile,
) -> (r: Result<Vec<u8>, String>)
    ensures
        bytes_result(r) == encrypt_v8_inner_spec(
            format_subkey(key.sk_view(), FORMAT_BLOCK_V8),
            key.primes_view(),
            aad@,
            message@,
            pad_profile,
        ),
        bytes_result(r) == encrypt_v8_spec(
            key.primes_view(),
            key.sk_view(),
            aad@,
            message@,
            pad_profile,
        ),
{
    proof {
        use_type_invariant(key);
        lemma_key_check_ok(key.primes_view());
    }
    encrypt_bytes_v8_core(message, key.primes.as_slice(), &key.sk, aad, pad_profile)
}

} // verus!

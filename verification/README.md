# napqes

NAPQES is an authenticated encryption scheme built on HMAC-SHA256 alone:
a ciphertext interleaves key-derived noise tokens with arithmetic tokens
`c * k + a` over a tuple of primes, masks them with an HMAC keystream and
closes them with an HMAC tag. This crate implements it in Verus; every
function under `src/` carries a contract that Verus proves.

## Layout

- `src/aead.rs` — v8 block format (synthetic nonce, format subkeys, fixed
  token count per padding bucket); decryption inverts encryption.
- `src/stream.rs` — v8 streaming format and the chunk-at-a-time encryptor;
  decryption inverts encryption, and a stream cut short or followed by
  extra bytes is refused.
- `src/legacy.rs` — the v7 format, kept to read archived ciphertexts.
- `src/padding.rs`, `src/tokens.rs`, `src/derive.rs`, `src/rounding.rs` —
  padding profiles, token emission and lock-step decoding, the HMAC
  derivations, and the exact integer form of the v7 noise threshold.
- `src/primes.rs`, `src/key.rs` — prime keys and their validation.
- `src/kem.rs`, `src/kem_exchange.rs` — FrodoKEM-640-AES (and hybrid
  FrodoKEM + X25519) key establishment into a prime key.
- `src/ot_frame.rs`, `src/protocols/`, `src/gateway.rs`, `src/key_file.rs` —
  the OT envelope with anti-replay counters, Modbus TCP and DNP3 framing,
  and the gateway's per-frame decisions (`ingress_step`, `egress_step`:
  only an envelope that opens is ever forwarded).
- `src/self_test.rs` — power-on known-answer and integrity tests.
- `src/sts_bits.rs`, `src/gf2.rs`, `src/lfsr.rs` — integer parts of the
  SP 800-22 tests on a NAPQES bitstream: templates, walks and excursion
  counts, the GF(2) rank by Gauss-Jordan elimination (same row space,
  reduced echelon form), and the linear complexity by Berlekamp-Massey
  (a register of that length generates the bits, and by Massey's lemma no
  shorter one does).
- `src/primitives.rs`, `src/kem_primitives.rs`, `src/base64_text.rs` and
  the JSON reader in `src/key_file.rs` — the trusted calls into
  `hmac`/`sha2`, `subtle`, `rand`, `hkdf`, `pqcrypto-frodo`,
  `x25519-dalek`, `base64` and `serde_json`, each with the contract it is
  trusted for.
- `app/` — the command-line programs: a round-trip demo, the Legacy Shield
  gateway (sockets, tasks, configuration) and the statistical test suite
  (floating point).

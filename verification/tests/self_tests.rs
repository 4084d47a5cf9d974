use napqes::self_test::{
    integrity_check, kat_decrypt, kat_encrypt, kat_tamper_rejection, run_power_on_self_tests,
};

#[test]
fn all_self_tests_pass() {
    run_power_on_self_tests().expect("power-on self-tests failed");
}

#[test]
fn kat1_encrypt_matches_reference() {
    kat_encrypt().expect("KAT-1 failed");
}

#[test]
fn kat2_decrypt_matches_plaintext() {
    kat_decrypt().expect("KAT-2 failed");
}

#[test]
fn kat3_tampered_ciphertext_rejected() {
    kat_tamper_rejection().expect("KAT-3 failed");
}

#[test]
fn integrity_check_passes() {
    integrity_check().expect("INT-1 failed");
}

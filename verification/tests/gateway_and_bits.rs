use napqes::gateway::{cef_message, peek_device_id, peek_seq, reassemble_modbus, rekey_interval, uses_kem};
use napqes::sts_bits::{
    aperiodic_templates, bits_to_usize, build_walk, count_notm, excursion_visit_counts,
    generate_bits, is_aperiodic, state_visit_count,
};

#[test]
fn key_mode_follows_the_configuration() {
    assert!(uses_kem("ingress", "peer:5600", ""));
    assert!(!uses_kem("ingress", "", "0.0.0.0:5600"));
    assert!(uses_kem("egress", "", "0.0.0.0:5600"));
    assert!(!uses_kem("egress", "peer:5600", ""));
    assert!(!uses_kem("bridge", "peer:5600", "0.0.0.0:5600"));
    assert_eq!(rekey_interval(300), 300);
    assert_eq!(rekey_interval(0), u64::MAX / 2);
}

#[test]
fn envelope_peeks() {
    let mut env = vec![0x4E, 0x51, 0x01];
    env.extend_from_slice(&0x0102030405060708u64.to_be_bytes());
    env.extend_from_slice(&42u64.to_be_bytes());
    env.extend_from_slice(&[0, 0, 0, 0]);
    assert_eq!(peek_device_id(&env), Some(0x0102030405060708));
    assert_eq!(peek_seq(&env), Some(42));
    assert_eq!(peek_device_id(&env[..22]), None);
    assert_eq!(peek_seq(&env[..22]), None);
    let mut bad = env.clone();
    bad[0] = 0;
    assert_eq!(peek_device_id(&bad), None);
    assert_eq!(peek_seq(&bad), Some(42));
}

#[test]
fn modbus_reassembly() {
    assert_eq!(reassemble_modbus(&[0x11, 0x03, 0x00]), vec![0, 0, 0, 0, 0, 3, 0x11, 0x03, 0x00]);
    assert_eq!(reassemble_modbus(&[]), vec![0, 0, 0, 0, 0, 0]);
}

#[test]
fn cef_line() {
    assert_eq!(
        cef_message("AUTH_FAIL", 7, 1700000000, "proto=DNP3 seq=4"),
        "CEF:0|EPINeon|LegacyShieldGateway|1.0|AUTH_FAIL|AUTH FAIL|7|rt=1700000000 proto=DNP3 seq=4\n"
    );
}

#[test]
fn bit_patterns_and_templates() {
    assert_eq!(bits_to_usize(&[1, 0, 1, 1]), 11);
    assert_eq!(bits_to_usize(&[]), 0);
    assert!(is_aperiodic(&[0, 0, 1]));
    assert!(!is_aperiodic(&[1, 0, 1]));
    assert!(!is_aperiodic(&[1, 1]));
    assert!(is_aperiodic(&[1]));
    let t2 = aperiodic_templates(2);
    assert_eq!(t2, vec![vec![0, 1], vec![1, 0]]);
    assert_eq!(aperiodic_templates(9).len(), 148);
}

#[test]
fn template_matching_is_non_overlapping() {
    assert_eq!(count_notm(&[1, 1, 1, 1, 1], &[1, 1]), 2);
    assert_eq!(count_notm(&[0, 1, 0, 1, 0], &[0, 1, 0]), 1);
    assert_eq!(count_notm(&[0, 0], &[0, 0, 0]), 0);
}

#[test]
fn random_walk() {
    let (walk, zeros) = build_walk(&[1, 0, 0, 1, 1, 0]);
    assert_eq!(walk, vec![0, 1, 0, -1, 0, 1, 0]);
    assert_eq!(zeros, 3);
}

#[test]
fn bitstream_has_the_requested_bits() {
    let bits = generate_bits(1001).unwrap();
    assert_eq!(bits.len(), 1001);
    assert!(bits.iter().all(|&b| b <= 1));
    assert!(bits.iter().any(|&b| b == 1) && bits.iter().any(|&b| b == 0));
}

#[test]
fn excursion_visits_are_counted_per_excursion() {
    // Bits 1,1,0,0,0,1,1,1,1,1,1,0,0,0,0,0,0 walk 0,1,2,1,0,-1,0,1,2,3,4,5,6,5,4,3,2,1,0.
    let walk: Vec<i64> = vec![0, 1, 2, 1, 0, -1, 0, 1, 2, 3, 4, 5, 6, 5, 4, 3, 2, 1, 0];
    // Visits to 1: two in the first excursion, none in the second, two in the third.
    assert_eq!(excursion_visit_counts(&walk, 1), vec![1, 0, 2, 0, 0, 0]);
    // Visits to 2: once, none, twice.
    assert_eq!(excursion_visit_counts(&walk, 2), vec![1, 1, 1, 0, 0, 0]);
    assert_eq!(state_visit_count(&walk, 1), 4);
    assert_eq!(state_visit_count(&walk, -1), 1);
    assert_eq!(state_visit_count(&walk, 7), 0);
}

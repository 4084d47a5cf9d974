use napqes::rounding::{round_sig53, v7_threshold_exec};

fn float_decision(x: u64, y: u64) -> bool {
    let two64 = 18446744073709551616.0_f64;
    let t = y as f64 / two64;
    let p = 0.75 + t * (0.99 - 0.75);
    (x as f64 / two64) < p
}

fn integer_decision(x: u64, y: u64) -> bool {
    round_sig53(x as u128) < v7_threshold_exec(y)
}

struct Lcg(u64);

impl Lcg {
    fn next(&mut self) -> u64 {
        self.0 = self.0.wrapping_mul(6364136223846793005).wrapping_add(1442695040888963407);
        let a = self.0;
        self.0 = self.0.wrapping_mul(6364136223846793005).wrapping_add(1442695040888963407);
        (a & 0xFFFF_FFFF_0000_0000) | (self.0 >> 32)
    }
}

#[test]
fn integer_threshold_matches_binary64() {
    let mut rng = Lcg(7);
    for _ in 0..200_000 {
        let x = rng.next();
        let y = rng.next();
        assert_eq!(integer_decision(x, y), float_decision(x, y), "x={} y={}", x, y);
    }
}

#[test]
fn integer_threshold_matches_binary64_near_boundary() {
    let mut rng = Lcg(11);
    for _ in 0..20_000 {
        let y = rng.next();
        let t = y as f64 / 18446744073709551616.0_f64;
        let p = 0.75 + t * (0.99 - 0.75);
        let base = (p * 18446744073709551616.0_f64) as u64;
        for d in [0u64, 1, 512, 1024, 2047, 2048, 2049, 4096] {
            for x in [base.wrapping_sub(d), base.saturating_add(d)] {
                assert_eq!(integer_decision(x, y), float_decision(x, y), "x={} y={}", x, y);
            }
        }
    }
    for (x, y) in [(0u64, 0u64), (u64::MAX, u64::MAX), (u64::MAX, 0), (0, u64::MAX)] {
        assert_eq!(integer_decision(x, y), float_decision(x, y));
    }
}

#[test]
fn rounding_to_53_bits_ties_to_even() {
    assert_eq!(round_sig53(1u128 << 53), 1u128 << 53);
    assert_eq!(round_sig53((1u128 << 53) + 1), 1u128 << 53);
    assert_eq!(round_sig53((1u128 << 53) + 3), (1u128 << 53) + 4);
    assert_eq!(round_sig53(u64::MAX as u128), 1u128 << 64);
    assert_eq!(round_sig53(12345), 12345);
}

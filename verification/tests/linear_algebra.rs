use napqes::gf2::gf2_rank32;
use napqes::lfsr::berlekamp_massey;

#[test]
fn identity_matrix_has_full_rank() {
    let mut m = [0u32; 32];
    for (r, row) in m.iter_mut().enumerate() {
        *row = 1 << r;
    }
    assert_eq!(gf2_rank32(&mut m), 32);
}

#[test]
fn zero_matrix_has_rank_zero() {
    let mut m = [0u32; 32];
    assert_eq!(gf2_rank32(&mut m), 0);
    assert_eq!(m, [0u32; 32]);
}

#[test]
fn dependent_rows_lower_the_rank() {
    let mut m = [0u32; 32];
    for (r, row) in m.iter_mut().enumerate() {
        *row = 1 << r;
    }
    // Row 31 becomes the sum of rows 0 and 1: rank 31.
    m[31] = 0b11;
    assert_eq!(gf2_rank32(&mut m), 31);
    // Only three distinct patterns, one the sum of the other two: rank 2.
    let mut n = [0u32; 32];
    for (r, row) in n.iter_mut().enumerate() {
        *row = match r % 3 {
            0 => 0xF0F0_F0F0,
            1 => 0x0F0F_0F0F,
            _ => 0xFFFF_FFFF,
        };
    }
    assert_eq!(gf2_rank32(&mut n), 2);
    // What is left is in reduced echelon form: two pivot rows, then zeros.
    assert!(n[2..].iter().all(|&x| x == 0));
}

#[test]
fn linear_complexity_of_known_sequences() {
    use_bits(&[1, 1, 0, 1, 0, 1, 1, 1, 1, 0, 0, 0, 1], 4);
    use_bits(&[0, 0, 0, 0], 0);
    use_bits(&[0, 0, 0, 1], 4);
    use_bits(&[1, 1, 1, 1], 1);
    use_bits(&[1, 0, 1, 0, 1, 0, 1, 0], 2);
    use_bits(&[1], 1);
    use_bits(&[0, 1], 2);
    use_bits(&[], 0);
}

fn use_bits(s: &[u8], expected: usize) {
    assert_eq!(berlekamp_massey(s), expected, "sequence {:?}", s);
}

use garuda::simd::{dot_i8, sum_i8};

#[test]
fn dot_i8_matches_naive_and_scalar_matches_hardware() {
    // Lengths that exercise a 16-wide body and a ragged tail.
    for n in [0usize, 1, 15, 16, 31, 32, 64, 100] {
        let a: Vec<i8> = (0..n).map(|i| (i as i32 % 200 - 100) as i8).collect();
        let b: Vec<i8> = (0..n).map(|i| (i as i32 * 7 % 200 - 100) as i8).collect();
        let naive: i32 = a.iter().zip(&b).map(|(&x, &y)| x as i32 * y as i32).sum();
        assert_eq!(dot_i8(&a, &b), naive, "n={n}");
    }
}

#[test]
fn dot_i8_handles_extremes_without_overflow() {
    // 128 × (-128 × -128) fits comfortably in i32.
    let a = vec![-128i8; 128];
    let b = vec![-128i8; 128];
    assert_eq!(dot_i8(&a, &b), 128 * 128 * 128);
}

#[test]
fn sums_of_bytes_are_exact() {
    assert_eq!(sum_i8(&[]), 0);
    assert_eq!(sum_i8(&[-128, 127, 5]), 4);
    assert_eq!(sum_i8(&vec![-128i8; 131_071]), -128 * 131_071);
}

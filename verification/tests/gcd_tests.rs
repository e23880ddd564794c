use uiasub_code_benchmark::gcd::euclid_gcd;
use uiasub_code_benchmark::gcd::WorkloadError;
use uiasub_code_benchmark::reference_gcd;
use uiasub_code_benchmark::reference_gcd_large_capacity;
use uiasub_code_benchmark::stein_gcd;
use uiasub_code_benchmark::stein_gcd_large_capacity;

/// Plain Euclidean GCD on magnitudes, as an independent reference.
fn euclid(a: i64, b: i64) -> u64 {
    let mut a = a.unsigned_abs();
    let mut b = b.unsigned_abs();
    while b != 0 {
        let t = b;
        b = a % b;
        a = t;
    }
    a
}

fn euclid_u128(a: u128, b: u128) -> u128 {
    let mut a = a;
    let mut b = b;
    while b != 0 {
        let t = b;
        b = a % b;
        a = t;
    }
    a
}

#[test]
fn stein_matches_euclid() {
    let samples: [(i64, i64); 12] = [
        (0, 0),
        (0, 5),
        (5, 0),
        (12, 18),
        (18, 12),
        (-12, 18),
        (12, -18),
        (-12, -18),
        (1, 1),
        (1000000007, 998244353),
        (1 << 40, 1 << 20),
        (270, 192),
    ];
    for &(a, b) in samples.iter() {
        assert_eq!(stein_gcd(a, b), euclid(a, b), "pair ({}, {})", a, b);
    }
}

#[test]
fn stein_handles_extreme_magnitudes() {
    assert_eq!(stein_gcd(i64::MIN, 0), 9223372036854775808u64);
    assert_eq!(stein_gcd(0, i64::MIN), 9223372036854775808u64);
    assert_eq!(stein_gcd(i64::MIN, i64::MIN), 9223372036854775808u64);
    assert_eq!(stein_gcd(i64::MIN, 6), 2);
    assert_eq!(stein_gcd(i64::MAX, 1), 1);
}

#[test]
fn stein_divides_both_and_is_greatest() {
    let samples: [(i64, i64); 5] = [(12, 18), (270, 192), (7, 13), (100, 10), (-36, 24)];
    for &(a, b) in samples.iter() {
        let g = stein_gcd(a, b);
        assert!(g > 0);
        assert_eq!(a.unsigned_abs() % g, 0);
        assert_eq!(b.unsigned_abs() % g, 0);
        // No larger common divisor exists.
        for d in (g + 1)..=(g + 50) {
            assert!(a.unsigned_abs() % d != 0 || b.unsigned_abs() % d != 0);
        }
    }
}

#[test]
fn stein_matches_library_euclid() {
    let samples: [(i64, i64); 8] = [
        (0, 0),
        (0, 5),
        (12, 18),
        (-270, 192),
        (i64::MIN, 6),
        (i64::MAX, i64::MAX - 1),
        (97, 89),
        (1 << 62, 1 << 31),
    ];
    for &(a, b) in samples.iter() {
        assert_eq!(stein_gcd(a, b), euclid_gcd(a, b));
    }
}

#[test]
fn stein_is_commutative() {
    let samples: [(i64, i64); 4] = [(12, 18), (0, 9), (-5, 35), (48, 36)];
    for &(a, b) in samples.iter() {
        assert_eq!(stein_gcd(a, b), stein_gcd(b, a));
    }
}

#[test]
fn stein_large_capacity_matches_euclid() {
    let samples: [(u128, u128); 7] = [
        (0, 0),
        (0, 7),
        (7, 0),
        (12, 18),
        (1 << 100, 1 << 60),
        (u128::MAX, 1),
        ((1 << 100) * 3, (1 << 100) * 5),
    ];
    for &(a, b) in samples.iter() {
        assert_eq!(stein_gcd_large_capacity(a, b), euclid_u128(a, b));
    }
}

#[test]
fn reference_gcd_basic_pair() {
    assert_eq!(reference_gcd("12 18").unwrap(), "6");
}

#[test]
fn reference_gcd_multiple_pairs() {
    assert_eq!(reference_gcd("4 6 10 15").unwrap(), "2 5");
    assert_eq!(reference_gcd("12 18\n270 192").unwrap(), "6 6");
}

#[test]
fn reference_gcd_empty_input_gives_sentinel() {
    assert_eq!(reference_gcd("").unwrap(), "No valid numbers found");
    assert_eq!(reference_gcd("   \n\t ").unwrap(), "No valid numbers found");
    assert_eq!(reference_gcd("foo bar").unwrap(), "No valid numbers found");
}

#[test]
fn reference_gcd_odd_count_is_malformed() {
    assert_eq!(reference_gcd("5"), Err(WorkloadError::MalformedWorkload));
    assert_eq!(reference_gcd("3 4 5"), Err(WorkloadError::MalformedWorkload));
}

#[test]
fn reference_gcd_skips_unparsable_tokens() {
    assert_eq!(reference_gcd("12 foo 18").unwrap(), "6");
    // A value out of the i64 range is not a valid number and is skipped,
    // leaving an odd count here.
    assert_eq!(
        reference_gcd("99999999999999999999 1"),
        Err(WorkloadError::MalformedWorkload)
    );
    // Signs are accepted the way integer parsing accepts them.
    assert_eq!(reference_gcd("-12 +18").unwrap(), "6");
}

#[test]
fn reference_gcd_large_capacity_basic() {
    assert_eq!(reference_gcd_large_capacity("12 18").unwrap(), "6");
    assert_eq!(
        reference_gcd_large_capacity("").unwrap(),
        "No valid numbers found"
    );
    // Negative tokens do not parse as u128 and are skipped.
    assert_eq!(reference_gcd_large_capacity("12 18 -1").unwrap(), "6");
    assert_eq!(
        reference_gcd_large_capacity("5"),
        Err(WorkloadError::MalformedWorkload)
    );
}

#[test]
fn reference_gcd_large_capacity_wide_values() {
    let a = 1u128 << 100;
    let b = 1u128 << 60;
    let input = format!("{} {}", a, b);
    let expected = format!("{}", 1u128 << 60);
    assert_eq!(reference_gcd_large_capacity(&input).unwrap(), expected);
}

use uiasub_code_benchmark::numfmt::format_usize;
use uiasub_code_benchmark::numfmt::u128_to_string;

#[test]
fn small_counts_print_as_they_are() {
    assert_eq!(format_usize(0), "0");
    assert_eq!(format_usize(7), "7");
    assert_eq!(format_usize(999), "999");
}

#[test]
fn thousands_round_to_k() {
    assert_eq!(format_usize(1000), "1K");
    assert_eq!(format_usize(1499), "1K");
    assert_eq!(format_usize(2501), "3K");
    assert_eq!(format_usize(20000), "20K");
    assert_eq!(format_usize(999999), "1000K");
}

#[test]
fn thousands_ties_go_to_even() {
    // The same rounding the standard float formatter applies to x.5.
    assert_eq!(format_usize(1500), "2K");
    assert_eq!(format_usize(2500), "2K");
    assert_eq!(format_usize(3500), "4K");
}

#[test]
fn millions_round_to_m() {
    assert_eq!(format_usize(1000000), "1M");
    assert_eq!(format_usize(1499999), "1M");
    assert_eq!(format_usize(2500000), "2M");
    assert_eq!(format_usize(1500000), "2M");
    assert_eq!(format_usize(20000000), "20M");
}

#[test]
fn decimal_rendering_is_exact() {
    assert_eq!(u128_to_string(0), "0");
    assert_eq!(u128_to_string(10), "10");
    assert_eq!(u128_to_string(907), "907");
    assert_eq!(
        u128_to_string(u128::MAX),
        "340282366920938463463374607431768211455"
    );
}

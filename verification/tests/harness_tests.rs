use uiasub_code_benchmark::reference_reverse;
use uiasub_code_benchmark::stats::isqrt_u128;
use uiasub_code_benchmark::stats::make_run_record;
use uiasub_code_benchmark::stats::outputs_match;
use uiasub_code_benchmark::stats::summarize;
use uiasub_code_benchmark::stats::RunRecord;
use uiasub_code_benchmark::stats::StatsError;

fn record(idx: usize, nanos: u64, output: &str, expected: &str) -> RunRecord {
    make_run_record(idx, nanos, String::from(output), expected)
}

#[test]
fn outputs_match_trims_outer_whitespace_only() {
    assert!(outputs_match("6", "  6 \n"));
    assert!(outputs_match(" olleh dlrow\n", "olleh dlrow"));
    assert!(!outputs_match("6", "7"));
    assert!(!outputs_match("a b", "a  b"));
    assert!(!outputs_match("A", "a"));
    assert!(outputs_match("", "   "));
}

#[test]
fn run_record_judges_output() {
    let r = record(1, 1500, "6\n", "6");
    assert!(r.pass);
    assert_eq!(r.run_index, 1);
    assert_eq!(r.elapsed_nanos, 1500);
    let r2 = record(2, 1500, "7", "6");
    assert!(!r2.pass);
}

#[test]
fn echoing_candidate_fails_reversal_challenge() {
    let input = "hello world";
    let expected = reference_reverse(input);
    // A candidate that echoes its stdin verbatim produces `input` itself.
    let r = record(1, 1000, input, &expected);
    assert!(!r.pass);
}

#[test]
fn perfect_candidate_passes_all_runs() {
    let input = "hello world";
    let expected = reference_reverse(input);
    let mut runs = Vec::new();
    for i in 0..5usize {
        runs.push(record(i + 1, 1000 + i as u64, &expected, &expected));
    }
    let s = summarize(runs).unwrap();
    assert!(s.all_passed);
    assert_eq!(s.runs.len(), 5);
    assert_eq!(s.min_nanos, 1000);
    assert_eq!(s.max_nanos, 1004);
    // The standard deviation of any real sample is a well-defined integer.
    assert!(s.std_dev_nanos <= s.max_nanos);
}

#[test]
fn summary_statistics_exact_values() {
    let mut runs = Vec::new();
    for (i, t) in [1u64, 2, 3, 4].iter().enumerate() {
        runs.push(record(i, *t, "ok", "ok"));
    }
    let s = summarize(runs).unwrap();
    assert_eq!(s.mean_nanos, 2); // floor(10 / 4)
    assert_eq!(s.min_nanos, 1);
    assert_eq!(s.max_nanos, 4);
    // Variance numerator: 4 * 30 - 100 = 20; isqrt(20) = 4; 4 / 4 = 1.
    assert_eq!(s.std_dev_nanos, 1);
    assert!(s.all_passed);
}

#[test]
fn one_failed_run_fails_the_summary() {
    let mut runs = Vec::new();
    runs.push(record(1, 10, "6", "6"));
    runs.push(record(2, 20, "7", "6"));
    runs.push(record(3, 30, "6", "6"));
    let s = summarize(runs).unwrap();
    assert!(!s.all_passed);
    assert_eq!(s.min_nanos, 10);
    assert_eq!(s.max_nanos, 30);
}

#[test]
fn summarize_without_runs_is_an_error() {
    assert!(matches!(summarize(Vec::new()), Err(StatsError::NoRuns)));
}

#[test]
fn identical_times_have_zero_std_dev() {
    let mut runs = Vec::new();
    for i in 0..3usize {
        runs.push(record(i, 500, "x", "x"));
    }
    let s = summarize(runs).unwrap();
    assert_eq!(s.mean_nanos, 500);
    assert_eq!(s.std_dev_nanos, 0);
}

#[test]
fn integer_square_root_exact_values() {
    assert_eq!(isqrt_u128(0), 0);
    assert_eq!(isqrt_u128(1), 1);
    assert_eq!(isqrt_u128(15), 3);
    assert_eq!(isqrt_u128(16), 4);
    assert_eq!(isqrt_u128(1 << 100), 1 << 50);
    assert_eq!(isqrt_u128(u128::MAX), u64::MAX);
}

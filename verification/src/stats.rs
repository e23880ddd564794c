//! Validation and timing statistics for candidate runs: trimmed output
//! comparison, per-run records, and a benchmark summary with exact integer
//! statistics (mean, minimum, maximum, and population standard deviation in
//! nanoseconds, the latter as an integer square root).

use vstd::prelude::*;
use crate::text::chars_equal;
use crate::text::str_to_chars;
use crate::text::trim_chars;
use crate::text::trim_spec;

verus! {

/// Sum of the elapsed times.
pub open spec fn sum_elapsed(s: Seq<u64>) -> int
    decreases s.len(),
{
    if s.len() == 0 {
        0
    } else {
        sum_elapsed(s.drop_last()) + s.last()
    }
}

/// Sum of the squared elapsed times.
pub open spec fn sum_squares(s: Seq<u64>) -> int
    decreases s.len(),
{
    if s.len() == 0 {
        0
    } else {
        sum_squares(s.drop_last()) + s.last() * s.last()
    }
}

/// The smallest element (zero for an empty sequence).
pub open spec fn seq_min(s: Seq<u64>) -> u64
    decreases s.len(),
{
    if s.len() == 0 {
        0
    } else if s.len() == 1 {
        s[0]
    } else {
        let m = seq_min(s.drop_last());
        if s.last() < m {
            s.last()
        } else {
            m
        }
    }
}

/// The largest element (zero for an empty sequence).
pub open spec fn seq_max(s: Seq<u64>) -> u64
    decreases s.len(),
{
    if s.len() == 0 {
        0
    } else if s.len() == 1 {
        s[0]
    } else {
        let m = seq_max(s.drop_last());
        if s.last() > m {
            s.last()
        } else {
            m
        }
    }
}

pub proof fn lemma_sum_nonneg(s: Seq<u64>)
    ensures
        sum_elapsed(s) >= 0,
        sum_squares(s) >= 0,
    decreases s.len(),
{
    if s.len() != 0 {
        lemma_sum_nonneg(s.drop_last());
        assert(s.last() * s.last() >= 0) by (nonlinear_arith);
    }
}

/// The sum is at most the length times the largest representable time.
pub proof fn lemma_sum_bounded(s: Seq<u64>)
    ensures
        sum_elapsed(s) <= s.len() * (u64::MAX as int),
    decreases s.len(),
{
    if s.len() != 0 {
        lemma_sum_bounded(s.drop_last());
        assert((s.len() - 1) * (u64::MAX as int) + (u64::MAX as int) == s.len() * (
        u64::MAX as int)) by (nonlinear_arith);
    }
}

/// Sum of squared deviations from a common value.
pub open spec fn sum_sq_dev(s: Seq<u64>, c: int) -> int
    decreases s.len(),
{
    if s.len() == 0 {
        0
    } else {
        sum_sq_dev(s.drop_last(), c) + (s.last() - c) * (s.last() - c)
    }
}

pub proof fn lemma_sq_dev_nonneg(s: Seq<u64>, c: int)
    ensures
        sum_sq_dev(s, c) >= 0,
    decreases s.len(),
{
    if s.len() != 0 {
        lemma_sq_dev_nonneg(s.drop_last(), c);
        assert((s.last() - c) * (s.last() - c) >= 0) by (nonlinear_arith);
    }
}

pub proof fn lemma_sq_dev_expand(s: Seq<u64>, c: int)
    ensures
        sum_sq_dev(s, c) == sum_squares(s) - 2 * c * sum_elapsed(s) + s.len() * (c * c),
    decreases s.len(),
{
    if s.len() == 0 {
    } else {
        lemma_sq_dev_expand(s.drop_last(), c);
        let x = s.last() as int;
        let m = (s.len() - 1) as int;
        assert((x - c) * (x - c) == x * x - 2 * c * x + c * c) by (nonlinear_arith);
        assert(m * (c * c) + c * c == (m + 1) * (c * c)) by (nonlinear_arith);
        assert(2 * c * sum_elapsed(s.drop_last()) + 2 * c * x == 2 * c * (sum_elapsed(
            s.drop_last(),
        ) + x)) by (nonlinear_arith);
    }
}

/// The power-mean inequality used for the variance: the squared sum never
/// exceeds the length times the sum of squares, so the population variance
/// numerator is non-negative.
pub proof fn lemma_sum_squares_dominates(s: Seq<u64>)
    ensures
        s.len() * sum_squares(s) >= sum_elapsed(s) * sum_elapsed(s),
    decreases s.len(),
{
    if s.len() == 0 {
    } else {
        let p = s.drop_last();
        let x = s.last() as int;
        let n = p.len() as int;
        let q = sum_squares(p);
        let sm = sum_elapsed(p);
        lemma_sum_squares_dominates(p);
        lemma_sq_dev_expand(p, x);
        lemma_sq_dev_nonneg(p, x);
        assert(q - 2 * x * sm + n * (x * x) >= 0);
        assert((n + 1) * (q + x * x) >= (sm + x) * (sm + x)) by (nonlinear_arith)
            requires
                n * q >= sm * sm,
                q - 2 * x * sm + n * (x * x) >= 0,
        ;
    }
}

/// `r` is the integer square root of `x`.
pub open spec fn is_sqrt(r: int, x: int) -> bool {
    0 <= r && r * r <= x && x < (r + 1) * (r + 1)
}

/// The integer square root is unique.
pub proof fn lemma_sqrt_unique(r1: int, r2: int, x: int)
    requires
        is_sqrt(r1, x),
        is_sqrt(r2, x),
    ensures
        r1 == r2,
{
    if r1 < r2 {
        assert((r1 + 1) * (r1 + 1) <= r2 * r2) by (nonlinear_arith)
            requires
                0 <= r1,
                r1 + 1 <= r2,
        ;
        assert(false);
    }
    if r2 < r1 {
        assert((r2 + 1) * (r2 + 1) <= r1 * r1) by (nonlinear_arith)
            requires
                0 <= r2,
                r2 + 1 <= r1,
        ;
        assert(false);
    }
}

/// The integer square root of `x`.
pub open spec fn isqrt_spec(x: int) -> int {
    choose|r: int| is_sqrt(r, x)
}

/// Binary search for the integer square root of a 128-bit value.
#[verifier::loop_isolation(false)]
pub fn isqrt_u128(x: u128) -> (r: u64)
    ensures
        is_sqrt(r as int, x as int),
        r as int == isqrt_spec(x as int),
{
    let mut lo: u64 = 0;
    let mut hi: u64 = if x < 0xFFFFFFFFFFFFFFFF {
        x as u64
    } else {
        0xFFFFFFFFFFFFFFFF
    };
    proof {
        if x < 0xFFFFFFFFFFFFFFFF {
            assert((x as int + 1) * (x as int + 1) > x as int) by (nonlinear_arith)
                requires
                    x >= 0,
            ;
        } else {
            assert((0xFFFFFFFFFFFFFFFFu64 as int + 1) * (0xFFFFFFFFFFFFFFFFu64 as int + 1) > x
                as int) by (nonlinear_arith)
                requires
                    x as int <= 0xFFFFFFFFFFFFFFFFFFFFFFFFFFFFFFFFu128 as int,
            ;
        }
    }
    while lo < hi
        invariant
            lo <= hi,
            (lo as int) * (lo as int) <= x as int,
            (x as int) < (hi as int + 1) * (hi as int + 1),
        decreases hi - lo,
    {
        let mid = lo + (hi - lo) / 2 + 1;
        proof {
            assert((mid as int) * (mid as int) <= (0xFFFFFFFFFFFFFFFFu64 as int) * (
            0xFFFFFFFFFFFFFFFFu64 as int)) by (nonlinear_arith)
                requires
                    0 <= mid as int <= 0xFFFFFFFFFFFFFFFFu64 as int,
            ;
            assert((0xFFFFFFFFFFFFFFFFu64 as int) * (0xFFFFFFFFFFFFFFFFu64 as int) <= u128::MAX
                as int) by (nonlinear_arith);
        }
        let m2 = (mid as u128) * (mid as u128);
        if m2 <= x {
            lo = mid;
        } else {
            hi = mid - 1;
        }
    }
    proof {
        assert(is_sqrt(lo as int, x as int));
        let w = choose|r: int| is_sqrt(r, x as int);
        assert(is_sqrt(w, x as int));
        lemma_sqrt_unique(w, lo as int, x as int);
    }
    lo
}

/// One observed run of a candidate: its index, wall-clock time, raw output,
/// and whether the trimmed output matched the trimmed expected text.
pub struct RunRecord {
    pub run_index: usize,
    pub elapsed_nanos: u64,
    pub output: String,
    pub pass: bool,
}

/// The elapsed times of a run list, in order.
pub open spec fn elapsed_of(rs: Seq<RunRecord>) -> Seq<u64> {
    rs.map_values(|r: RunRecord| r.elapsed_nanos)
}

/// Every run passed.
pub open spec fn all_passed_spec(rs: Seq<RunRecord>) -> bool {
    forall|i: int| 0 <= i < rs.len() ==> (#[trigger] rs[i]).pass
}

/// The verdict and statistics for one candidate after all its runs.
pub struct BenchmarkSummary {
    pub runs: Vec<RunRecord>,
    pub mean_nanos: u64,
    pub min_nanos: u64,
    pub max_nanos: u64,
    pub std_dev_nanos: u64,
    pub all_passed: bool,
}

/// Why no summary could be produced.
#[derive(Clone, Copy, Debug, PartialEq, Eq, Structural)]
pub enum StatsError {
    NoRuns,
    TimingOverflow,
}

/// Whether two output texts agree after trimming leading and trailing
/// whitespace from both; the comparison is otherwise exact.
pub fn outputs_match(expected: &str, actual: &str) -> (r: bool)
    ensures
        r == (trim_spec(expected@) == trim_spec(actual@)),
{
    let e = str_to_chars(expected);
    let a = str_to_chars(actual);
    let et = trim_chars(&e);
    let at = trim_chars(&a);
    chars_equal(&et, &at)
}

/// Builds the record of one run, judging the output against the expected
/// text by trimmed comparison.
pub fn make_run_record(run_index: usize, elapsed_nanos: u64, output: String, expected: &str) -> (r:
    RunRecord)
    ensures
        r.run_index == run_index,
        r.elapsed_nanos == elapsed_nanos,
        r.output == output,
        r.pass == (trim_spec(output@) == trim_spec(expected@)),
{
    let pass = outputs_match(output.as_str(), expected);
    RunRecord { run_index, elapsed_nanos, output, pass }
}

/// Aggregates all runs of one candidate into a summary: the arithmetic mean
/// (rounded down), minimum, maximum, and population standard deviation
/// (rounded down) of the elapsed times, and the conjunction of the per-run
/// verdicts. Fails exactly when there are no runs, or when the variance
/// numerator `n * sum of squares` cannot be computed in 128 bits.
#[verifier::loop_isolation(false)]
pub fn summarize(runs: Vec<RunRecord>) -> (r: Result<BenchmarkSummary, StatsError>)
    ensures
        ({
            let es = elapsed_of(runs@);
            let n = runs@.len() as int;
            match r {
                Result::Ok(s) => {
                    &&& n >= 1
                    &&& n * sum_squares(es) <= u128::MAX
                    &&& s.runs@ == runs@
                    &&& s.mean_nanos as int == sum_elapsed(es) / n
                    &&& s.min_nanos == seq_min(es)
                    &&& s.max_nanos == seq_max(es)
                    &&& s.std_dev_nanos as int == isqrt_spec(
                        n * sum_squares(es) - sum_elapsed(es) * sum_elapsed(es),
                    ) / n
                    &&& s.all_passed == all_passed_spec(runs@)
                },
                Result::Err(e) => {
                    if e == StatsError::NoRuns {
                        n == 0
                    } else {
                        n >= 1 && n * sum_squares(es) > u128::MAX
                    }
                },
            }
        }),
{
    let ghost es = elapsed_of(runs@);
    let n = runs.len();
    if n == 0 {
        return Result::Err(StatsError::NoRuns);
    }
    proof {
        lemma_sum_bounded(es);
        lemma_sum_nonneg(es);
        lemma_sum_squares_dominates(es);
        assert(es.len() == runs@.len());
    }
    let mut sum: u128 = 0;
    let mut sumsq: u128 = 0;
    let mut mn: u64 = runs[0].elapsed_nanos;
    let mut mx: u64 = runs[0].elapsed_nanos;
    let mut all_ok: bool = true;
    let mut i: usize = 0;
    proof {
        assert(es.take(0) =~= Seq::<u64>::empty());
    }
    while i < n
        invariant
            i <= n,
            n == runs@.len(),
            es == elapsed_of(runs@),
            es.len() == n,
            sum as int == sum_elapsed(es.take(i as int)),
            sumsq as int == sum_squares(es.take(i as int)),
            i >= 1 ==> mn == seq_min(es.take(i as int)),
            i >= 1 ==> mx == seq_max(es.take(i as int)),
            i == 0 ==> mn == es[0] && mx == es[0],
            all_ok == all_passed_spec(runs@.take(i as int)),
        decreases n - i,
    {
        let t = runs[i].elapsed_nanos;
        proof {
            assert(es[i as int] == runs@[i as int].elapsed_nanos);
            assert(es.take((i + 1) as int).drop_last() =~= es.take(i as int));
            assert(es.take((i + 1) as int).last() == es[i as int]);
            assert(runs@.take((i + 1) as int).drop_last() =~= runs@.take(i as int));
            lemma_sum_nonneg(es.take(i as int));
            lemma_sum_squares_dominates(es);
            lemma_sum_bounded(es);
        }
        proof {
            assert((t as int) * (t as int) <= u128::MAX as int) by (nonlinear_arith)
                requires
                    0 <= t as int <= 0xFFFFFFFFFFFFFFFFu64 as int,
            ;
        }
        let tsq = (t as u128) * (t as u128);
        let newsum = match sum.checked_add(t as u128) {
            Option::Some(v) => v,
            Option::None => {
                proof {
                    // The full sum is at least this partial sum, and its
                    // square is at least itself, so `n * sum_squares`
                    // cannot fit either.
                    lemma_sum_prefix_le(es, (i + 1) as int);
                    let full = sum_elapsed(es);
                    assert(full > u128::MAX);
                    assert(full * full >= full) by (nonlinear_arith)
                        requires
                            full >= 1,
                    ;
                }
                return Result::Err(StatsError::TimingOverflow);
            },
        };
        let newsumsq = match sumsq.checked_add(tsq) {
            Option::Some(v) => v,
            Option::None => {
                proof {
                    lemma_sumsq_prefix_le(es, (i + 1) as int);
                    let fullq = sum_squares(es);
                    assert(fullq > u128::MAX);
                    assert((n as int) * fullq >= 1 * fullq) by (nonlinear_arith)
                        requires
                            n >= 1,
                            fullq >= 0,
                    ;
                }
                return Result::Err(StatsError::TimingOverflow);
            },
        };
        sum = newsum;
        sumsq = newsumsq;
        if i == 0 {
            mn = t;
            mx = t;
        } else {
            if t < mn {
                mn = t;
            }
            if t > mx {
                mx = t;
            }
        }
        let p = runs[i].pass;
        all_ok = all_ok && p;
        proof {
            let pre = runs@.take(i as int);
            let pre1 = runs@.take((i + 1) as int);
            assert(pre1.drop_last() =~= pre);
            if all_passed_spec(pre) && runs@[i as int].pass {
                assert forall|j: int| 0 <= j < pre1.len() implies (#[trigger] pre1[j]).pass by {
                    if j < i {
                        assert(pre1[j] == pre[j]);
                    } else {
                        assert(pre1[j] == runs@[i as int]);
                    }
                }
            }
            if all_passed_spec(pre1) {
                assert forall|j: int| 0 <= j < pre.len() implies (#[trigger] pre[j]).pass by {
                    assert(pre[j] == pre1[j]);
                }
                assert(pre1[i as int] == runs@[i as int]);
                assert(runs@[i as int].pass);
            }
            assert(all_passed_spec(pre1) == (all_passed_spec(pre) && runs@[i as int].pass));
        }
        i = i + 1;
    }
    proof {
        assert(es.take(n as int) =~= es);
        assert(runs@.take(n as int) =~= runs@);
    }
    let nq = match (n as u128).checked_mul(sumsq) {
        Option::Some(v) => v,
        Option::None => {
            return Result::Err(StatsError::TimingOverflow);
        },
    };
    // The squared sum fits because it is dominated by n * sumsq.
    proof {
        assert(sum as int * sum as int <= nq as int);
    }
    let s2 = sum * sum;
    let dev = nq - s2;
    let root = isqrt_u128(dev);
    let mean_wide = sum / (n as u128);
    proof {
        vstd::arithmetic::div_mod::lemma_fundamental_div_mod(sum as int, n as int);
        assert((n as int) * (sum as int / n as int) <= sum as int);
        assert(sum as int <= (n as int) * (u64::MAX as int));
        assert(sum as int / n as int <= u64::MAX as int) by (nonlinear_arith)
            requires
                n as int >= 1,
                (n as int) * (sum as int / n as int) <= (n as int) * (u64::MAX as int),
        ;
    }
    let mean = mean_wide as u64;
    let std_dev = root / (n as u64);
    Result::Ok(
        BenchmarkSummary {
            runs,
            mean_nanos: mean,
            min_nanos: mn,
            max_nanos: mx,
            std_dev_nanos: std_dev,
            all_passed: all_ok,
        },
    )
}

/// A prefix sum never exceeds the full sum.
pub proof fn lemma_sum_prefix_le(s: Seq<u64>, m: int)
    requires
        0 <= m <= s.len(),
    ensures
        sum_elapsed(s) >= sum_elapsed(s.take(m)),
    decreases s.len(),
{
    if m == s.len() {
        assert(s.take(m) =~= s);
    } else {
        lemma_sum_prefix_le(s.drop_last(), m);
        assert(s.drop_last().take(m) =~= s.take(m));
    }
}

/// A prefix sum of squares never exceeds the full sum of squares.
pub proof fn lemma_sumsq_prefix_le(s: Seq<u64>, m: int)
    requires
        0 <= m <= s.len(),
    ensures
        sum_squares(s) >= sum_squares(s.take(m)),
    decreases s.len(),
{
    if m == s.len() {
        assert(s.take(m) =~= s);
    } else {
        lemma_sumsq_prefix_le(s.drop_last(), m);
        assert(s.drop_last().take(m) =~= s.take(m));
        assert(s.last() * s.last() >= 0) by (nonlinear_arith);
    }
}

} // verus!

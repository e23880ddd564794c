//! The stone-expansion engine: a memoized recursive simulation of the
//! obelisk transformation rules, with cycle detection and checked
//! arithmetic, verified against a direct recursive count specification.

use vstd::prelude::*;
use vstd::arithmetic::power2::pow2;
use crate::gcd::lemma_pow2_exponent_bound;

verus! {

/// Number of decimal digits of `n` (one digit for zero).
pub open spec fn digit_count(n: nat) -> nat
    decreases n,
{
    if n < 10 {
        1
    } else {
        1 + digit_count(n / 10)
    }
}

/// Ten to the power `e`.
pub open spec fn pow10(e: nat) -> nat
    decreases e,
{
    if e == 0 {
        1
    } else {
        10 * pow10((e - 1) as nat)
    }
}

/// Powers of ten are positive.
pub proof fn lemma_pow10_pos(e: nat)
    ensures
        pow10(e) >= 1,
    decreases e,
{
    if e != 0 {
        lemma_pow10_pos((e - 1) as nat);
    }
}

pub proof fn lemma_pow10_monotone(a: nat, b: nat)
    requires
        a <= b,
    ensures
        pow10(a) <= pow10(b),
        pow10(a) >= 1,
    decreases b,
{
    lemma_pow10_pos(a);
    if a < b {
        lemma_pow10_monotone(a, (b - 1) as nat);
        assert(pow10(b) == 10 * pow10((b - 1) as nat));
        assert(10 * pow10((b - 1) as nat) >= 1 * pow10((b - 1) as nat)) by (nonlinear_arith)
            requires
                pow10((b - 1) as nat) >= 0,
        ;
    }
}

/// Powers of ten dominate powers of two.
pub proof fn lemma_pow10_ge_pow2(e: nat)
    ensures
        pow10(e) >= pow2(e),
    decreases e,
{
    vstd::arithmetic::power2::lemma2_to64();
    if e == 0 {
    } else {
        lemma_pow10_ge_pow2((e - 1) as nat);
        vstd::arithmetic::power2::lemma_pow2_unfold(e);
        assert(10 * pow10((e - 1) as nat) >= 2 * pow2((e - 1) as nat)) by (nonlinear_arith)
            requires
                pow10((e - 1) as nat) >= pow2((e - 1) as nat),
                pow2((e - 1) as nat) >= 0,
        ;
    }
}

/// A positive number is at least the power of ten of one less than its
/// digit count.
pub proof fn lemma_digit_count_lower(x: nat)
    requires
        x >= 1,
    ensures
        x >= pow10((digit_count(x) - 1) as nat),
    decreases x,
{
    if x < 10 {
    } else {
        lemma_digit_count_lower(x / 10);
        let d = digit_count(x);
        assert(digit_count(x / 10) == d - 1);
        assert(x >= 10 * (x / 10));
        assert(10 * (x / 10) >= 10 * pow10((d - 2) as nat)) by (nonlinear_arith)
            requires
                x / 10 >= pow10((d - 2) as nat),
        ;
        assert(pow10((d - 1) as nat) == 10 * pow10((d - 2) as nat));
    }
}

/// No 128-bit value has more than 128 decimal digits (in fact at most 39,
/// but this coarse bound is all the counter needs).
pub proof fn lemma_digit_count_bound(x: nat)
    requires
        x <= u128::MAX,
    ensures
        digit_count(x) <= 128,
{
    if x == 0 {
    } else {
        let d = digit_count(x);
        assert(d >= 1);
        lemma_digit_count_lower(x);
        lemma_pow10_ge_pow2((d - 1) as nat);
        vstd::arithmetic::power2::lemma2_to64();
        vstd::arithmetic::power2::lemma_pow2_adds(64, 64);
        assert(pow2(128) > u128::MAX) by (nonlinear_arith)
            requires
                pow2(128) == pow2(64) * pow2(64),
                pow2(64) == 0x10000000000000000,
        ;
        if d > 128 {
            lemma_pow2_exponent_bound((d - 1) as nat, x, 128);
            assert(false);
        }
    }
}

/// The stones produced from one stone in one round, by the rules in strict
/// priority order: the literal seven, zero, an even digit count, and the
/// multiplication fallback.
pub open spec fn stone_children(n: nat) -> Seq<nat> {
    if n == 7 {
        seq![3nat, 2nat, 3nat, 2nat]
    } else if n == 0 {
        seq![1nat]
    } else if digit_count(n) % 2 == 0 {
        let h = pow10(digit_count(n) / 2);
        seq![n / h, n % h]
    } else {
        seq![(2024 * n) as nat]
    }
}

/// The number of stones that one stone becomes after `t` rounds.
pub open spec fn expand_count(n: nat, t: nat) -> nat
    decreases t,
{
    if t == 0 {
        1
    } else if n == 7 {
        expand_count(3, (t - 1) as nat) + expand_count(2, (t - 1) as nat) + expand_count(
            3,
            (t - 1) as nat,
        ) + expand_count(2, (t - 1) as nat)
    } else if n == 0 {
        expand_count(1, (t - 1) as nat)
    } else if digit_count(n) % 2 == 0 {
        let h = pow10(digit_count(n) / 2);
        expand_count(n / h, (t - 1) as nat) + expand_count(n % h, (t - 1) as nat)
    } else {
        expand_count(2024 * n, (t - 1) as nat)
    }
}

/// Every stone value appearing in the expansion of `n` over `t` rounds fits
/// in 128 bits.
pub open spec fn expand_fits(n: nat, t: nat) -> bool
    decreases t,
{
    if t == 0 {
        true
    } else if n == 7 {
        expand_fits(3, (t - 1) as nat) && expand_fits(2, (t - 1) as nat)
    } else if n == 0 {
        expand_fits(1, (t - 1) as nat)
    } else if digit_count(n) % 2 == 0 {
        let h = pow10(digit_count(n) / 2);
        expand_fits(n / h, (t - 1) as nat) && expand_fits(n % h, (t - 1) as nat)
    } else {
        2024 * n <= u128::MAX && expand_fits(2024 * n, (t - 1) as nat)
    }
}

/// After zero rounds a stone is just itself: one stone.
pub proof fn lemma_expand_zero_rounds(n: nat)
    ensures
        expand_count(n, 0) == 1,
{
}

/// The total count over a list of initial stones.
pub open spec fn total_count(stones: Seq<u128>, t: nat) -> nat
    decreases stones.len(),
{
    if stones.len() == 0 {
        0
    } else {
        total_count(stones.drop_last(), t) + expand_count(stones.last() as nat, t)
    }
}

/// Every initial stone's expansion fits in 128 bits.
pub open spec fn all_fit(stones: Seq<u128>, t: nat) -> bool {
    forall|i: int| 0 <= i < stones.len() ==> expand_fits(#[trigger] stones[i] as nat, t)
}

/// The total over a list dominates the total over any prefix.
pub proof fn lemma_total_prefix(stones: Seq<u128>, t: nat, m: int)
    requires
        0 <= m <= stones.len(),
    ensures
        total_count(stones, t) >= total_count(stones.take(m), t),
    decreases stones.len(),
{
    if m == stones.len() {
        assert(stones.take(m) =~= stones);
    } else {
        lemma_total_prefix(stones.drop_last(), t, m);
        assert(stones.drop_last().take(m) =~= stones.take(m));
    }
}

/// The total over a list dominates each element's own count.
pub proof fn lemma_total_elem(stones: Seq<u128>, t: nat, i: int)
    requires
        0 <= i < stones.len(),
    ensures
        total_count(stones, t) >= expand_count(stones[i] as nat, t),
    decreases stones.len(),
{
    if i == stones.len() - 1 {
    } else {
        lemma_total_elem(stones.drop_last(), t, i);
    }
}

/// The expansion went wrong: either a stone value or a stone count left the
/// 128-bit range, or a `(value, rounds)` key was re-entered before its own
/// evaluation finished (a cycle in the rule graph, proved unreachable here).
#[derive(Clone, Copy, Debug, PartialEq, Eq, Structural)]
pub enum ExpansionError {
    CountOverflow,
    CycleDetected(u128, usize),
}

/// The memoization context for one top-level expansion: finished keys with
/// their counts, and the keys currently being evaluated.
pub struct ExpandContext {
    memo: Vec<(u128, usize, u128)>,
    in_progress: Vec<(u128, usize)>,
}

impl ExpandContext {
    /// Every memo entry records the exact count of a key whose expansion fits.
    pub closed spec fn memo_wf(self) -> bool {
        forall|j: int|
            0 <= j < self.memo@.len() ==> {
                let e = #[trigger] self.memo@[j];
                expand_fits(e.0 as nat, e.1 as nat) && expand_count(e.0 as nat, e.1 as nat)
                    == e.2 as nat
            }
    }

    /// The keys currently under evaluation, in call order.
    pub closed spec fn stack(self) -> Seq<(u128, usize)> {
        self.in_progress@
    }

    /// A fresh context with no finished and no in-progress keys.
    pub fn new() -> (r: Self)
        ensures
            r.memo_wf(),
            r.stack().len() == 0,
    {
        ExpandContext { memo: Vec::new(), in_progress: Vec::new() }
    }
}

/// Finds a memoized count for `(n, t)`.
#[verifier::loop_isolation(false)]
fn memo_lookup(memo: &Vec<(u128, usize, u128)>, n: u128, t: usize) -> (r: Option<u128>)
    ensures
        match r {
            Option::Some(c) => exists|j: int|
                0 <= j < memo@.len() && memo@[j] == (n, t, c),
            Option::None => true,
        },
{
    let mut i: usize = 0;
    while i < memo.len()
        invariant
            i <= memo@.len(),
        decreases memo@.len() - i,
    {
        let e = memo[i];
        if e.0 == n && e.1 == t {
            proof {
                assert(memo@[i as int] == (n, t, e.2));
            }
            return Option::Some(e.2);
        }
        i = i + 1;
    }
    Option::None
}

/// Whether `(n, t)` is currently being evaluated.
#[verifier::loop_isolation(false)]
fn stack_contains(st: &Vec<(u128, usize)>, n: u128, t: usize) -> (r: bool)
    ensures
        r == st@.contains((n, t)),
{
    let mut i: usize = 0;
    while i < st.len()
        invariant
            i <= st@.len(),
            forall|j: int| 0 <= j < i ==> st@[j] != (n, t),
        decreases st@.len() - i,
    {
        let e = st[i];
        if e.0 == n && e.1 == t {
            proof {
                assert(st@[i as int] == (n, t));
            }
            return true;
        }
        i = i + 1;
    }
    proof {
        if st@.contains((n, t)) {
            let j = choose|j: int| 0 <= j < st@.len() && st@[j] == (n, t);
            assert(st@[j] != (n, t));
        }
    }
    false
}

/// Number of decimal digits of `x`.
#[verifier::loop_isolation(false)]
fn digit_count_u128(x: u128) -> (r: u32)
    ensures
        r as nat == digit_count(x as nat),
        1 <= r <= 128,
{
    proof {
        lemma_digit_count_bound(x as nat);
    }
    let mut n = x;
    let mut c: u32 = 1;
    while n >= 10
        invariant
            digit_count(x as nat) == (c - 1) + digit_count(n as nat),
            1 <= c <= 128,
        decreases n,
    {
        proof {
            lemma_digit_count_bound(x as nat);
            assert(digit_count(n as nat) == 1 + digit_count((n / 10) as nat));
        }
        n = n / 10;
        c = c + 1;
    }
    c
}

/// Ten to the power `e`, which the caller knows to be representable.
#[verifier::loop_isolation(false)]
fn pow10_u128(e: u32) -> (r: u128)
    requires
        pow10(e as nat) <= u128::MAX,
    ensures
        r as nat == pow10(e as nat),
{
    let mut r: u128 = 1;
    let mut i: u32 = 0;
    while i < e
        invariant
            i <= e,
            r as nat == pow10(i as nat),
        decreases e - i,
    {
        proof {
            lemma_pow10_monotone((i + 1) as nat, e as nat);
            assert(pow10((i + 1) as nat) == 10 * pow10(i as nat));
        }
        r = r * 10;
        i = i + 1;
    }
    r
}

/// One expansion step: the stones that `n` becomes in a single round.
pub fn next_stones(n: u128) -> (r: Vec<u128>)
    requires
        (n != 7 && n != 0 && digit_count(n as nat) % 2 == 1) ==> 2024 * n <= u128::MAX,
    ensures
        r@.map_values(|x: u128| x as nat) == stone_children(n as nat),
{
    let mut out: Vec<u128> = Vec::new();
    if n == 7 {
        out.push(3);
        out.push(2);
        out.push(3);
        out.push(2);
    } else if n == 0 {
        out.push(1);
    } else {
        let d = digit_count_u128(n);
        if d % 2 == 0 {
            proof {
                lemma_digit_count_lower(n as nat);
                lemma_pow10_monotone((d / 2) as nat, (d - 1) as nat);
            }
            let h = pow10_u128(d / 2);
            out.push(n / h);
            out.push(n % h);
        } else {
            out.push(n * 2024);
        }
    }
    proof {
        assert(out@.map_values(|x: u128| x as nat) =~= stone_children(n as nat));
    }
    out
}

/// The memoized expansion of one key. Returns the exact count when every
/// intermediate value and count fits in 128 bits, and reports an overflow
/// otherwise; the cycle branch is present but proved unreachable, since
/// every in-progress key has strictly more rounds remaining than any key it
/// evaluates.
#[verifier::loop_isolation(false)]
fn expand_memo(n: u128, t: usize, ctx: &mut ExpandContext) -> (r: Result<u128, ExpansionError>)
    requires
        old(ctx).memo_wf(),
        forall|j: int| 0 <= j < old(ctx).stack().len() ==> (#[trigger] old(ctx).stack()[j]).1 > t,
    ensures
        final(ctx).memo_wf(),
        final(ctx).stack() == old(ctx).stack(),
        (expand_fits(n as nat, t as nat) && expand_count(n as nat, t as nat) <= u128::MAX) <==> (r
            matches Result::Ok(_)),
        (r matches Result::Ok(c) ==> expand_fits(n as nat, t as nat) && c as nat == expand_count(
            n as nat,
            t as nat,
        )),
        (r matches Result::Err(e) ==> e == ExpansionError::CountOverflow),
    decreases t,
{
    if t == 0 {
        return Result::Ok(1);
    }
    match memo_lookup(&ctx.memo, n, t) {
        Option::Some(c) => {
            return Result::Ok(c);
        },
        Option::None => {},
    }
    if stack_contains(&ctx.in_progress, n, t) {
        proof {
            let j = choose|j: int| 0 <= j < ctx.stack().len() && ctx.stack()[j] == (n, t);
            assert(ctx.stack()[j].1 > t);
            assert(false);
        }
        return Result::Err(ExpansionError::CycleDetected(n, t));
    }
    let ghost entry_stack = ctx.stack();
    ctx.in_progress.push((n, t));
    let t1 = t - 1;
    let result: Result<u128, ExpansionError> = if n == 7 {
        match expand_memo(3, t1, ctx) {
            Result::Err(e) => Result::Err(e),
            Result::Ok(c3) => match expand_memo(2, t1, ctx) {
                Result::Err(e) => Result::Err(e),
                Result::Ok(c2) => match c3.checked_add(c2) {
                    Option::None => Result::Err(ExpansionError::CountOverflow),
                    Option::Some(s1) => match s1.checked_add(c3) {
                        Option::None => Result::Err(ExpansionError::CountOverflow),
                        Option::Some(s2) => match s2.checked_add(c2) {
                            Option::None => Result::Err(ExpansionError::CountOverflow),
                            Option::Some(s3) => Result::Ok(s3),
                        },
                    },
                },
            },
        }
    } else if n == 0 {
        expand_memo(1, t1, ctx)
    } else {
        let d = digit_count_u128(n);
        if d % 2 == 0 {
            proof {
                lemma_digit_count_lower(n as nat);
                lemma_pow10_monotone((d / 2) as nat, (d - 1) as nat);
            }
            let h = pow10_u128(d / 2);
            let left = n / h;
            let right = n % h;
            match expand_memo(left, t1, ctx) {
                Result::Err(e) => Result::Err(e),
                Result::Ok(cl) => match expand_memo(right, t1, ctx) {
                    Result::Err(e) => Result::Err(e),
                    Result::Ok(cr) => match cl.checked_add(cr) {
                        Option::None => Result::Err(ExpansionError::CountOverflow),
                        Option::Some(s) => Result::Ok(s),
                    },
                },
            }
        } else {
            match n.checked_mul(2024) {
                Option::None => Result::Err(ExpansionError::CountOverflow),
                Option::Some(m) => expand_memo(m, t1, ctx),
            }
        }
    };
    ctx.in_progress.pop();
    proof {
        assert(ctx.stack() =~= entry_stack);
    }
    match result {
        Result::Ok(c) => {
            ctx.memo.push((n, t, c));
            Result::Ok(c)
        },
        Result::Err(e) => Result::Err(e),
    }
}

/// Brute-force expansion of one key by plain recursion, no memoization.
/// It meets the same contract as the memoized engine, so the two agree on
/// every input.
#[verifier::loop_isolation(false)]
pub fn expand_stone_brute(n: u128, t: usize) -> (r: Result<u128, ExpansionError>)
    ensures
        (expand_fits(n as nat, t as nat) && expand_count(n as nat, t as nat) <= u128::MAX) <==> (r
            matches Result::Ok(_)),
        (r matches Result::Ok(c) ==> expand_fits(n as nat, t as nat) && c as nat == expand_count(
            n as nat,
            t as nat,
        )),
        (r matches Result::Err(e) ==> e == ExpansionError::CountOverflow),
    decreases t,
{
    if t == 0 {
        return Result::Ok(1);
    }
    let t1 = t - 1;
    if n == 7 {
        match expand_stone_brute(3, t1) {
            Result::Err(e) => Result::Err(e),
            Result::Ok(c3) => match expand_stone_brute(2, t1) {
                Result::Err(e) => Result::Err(e),
                Result::Ok(c2) => match c3.checked_add(c2) {
                    Option::None => Result::Err(ExpansionError::CountOverflow),
                    Option::Some(s1) => match s1.checked_add(c3) {
                        Option::None => Result::Err(ExpansionError::CountOverflow),
                        Option::Some(s2) => match s2.checked_add(c2) {
                            Option::None => Result::Err(ExpansionError::CountOverflow),
                            Option::Some(s3) => Result::Ok(s3),
                        },
                    },
                },
            },
        }
    } else if n == 0 {
        expand_stone_brute(1, t1)
    } else {
        let d = digit_count_u128(n);
        if d % 2 == 0 {
            proof {
                lemma_digit_count_lower(n as nat);
                lemma_pow10_monotone((d / 2) as nat, (d - 1) as nat);
            }
            let h = pow10_u128(d / 2);
            match expand_stone_brute(n / h, t1) {
                Result::Err(e) => Result::Err(e),
                Result::Ok(cl) => match expand_stone_brute(n % h, t1) {
                    Result::Err(e) => Result::Err(e),
                    Result::Ok(cr) => match cl.checked_add(cr) {
                        Option::None => Result::Err(ExpansionError::CountOverflow),
                        Option::Some(s) => Result::Ok(s),
                    },
                },
            }
        } else {
            match n.checked_mul(2024) {
                Option::None => Result::Err(ExpansionError::CountOverflow),
                Option::Some(m) => expand_stone_brute(m, t1),
            }
        }
    }
}

/// Memoized expansion of a single stone over `t` rounds.
pub fn expand_stone(n: u128, t: usize) -> (r: Result<u128, ExpansionError>)
    ensures
        (expand_fits(n as nat, t as nat) && expand_count(n as nat, t as nat) <= u128::MAX) <==> (r
            matches Result::Ok(_)),
        (r matches Result::Ok(c) ==> expand_fits(n as nat, t as nat) && c as nat == expand_count(
            n as nat,
            t as nat,
        )),
        (r matches Result::Err(e) ==> e == ExpansionError::CountOverflow),
{
    let mut ctx = ExpandContext::new();
    expand_memo(n, t, &mut ctx)
}

/// Total number of stones after `pull_count` rounds, over all initial
/// stones, with every overflow detected and reported.
#[verifier::loop_isolation(false)]
pub fn obelisk_count(obelisks: &[u128], pull_count: usize) -> (r: Result<u128, ExpansionError>)
    ensures
        (all_fit(obelisks@, pull_count as nat) && total_count(obelisks@, pull_count as nat)
            <= u128::MAX) <==> (r matches Result::Ok(_)),
        (r matches Result::Ok(c) ==> c as nat == total_count(obelisks@, pull_count as nat)
            && all_fit(obelisks@, pull_count as nat)),
        (r matches Result::Err(e) ==> e == ExpansionError::CountOverflow),
{
    let ghost sv = obelisks@;
    let ghost t = pull_count as nat;
    let mut ctx = ExpandContext::new();
    let mut total: u128 = 0;
    let mut i: usize = 0;
    proof {
        assert(sv.take(0) =~= Seq::<u128>::empty());
    }
    while i < obelisks.len()
        invariant
            i <= sv.len(),
            sv == obelisks@,
            ctx.memo_wf(),
            ctx.stack().len() == 0,
            total as nat == total_count(sv.take(i as int), t),
            forall|j: int| 0 <= j < i ==> expand_fits(#[trigger] sv[j] as nat, t),
        decreases sv.len() - i,
    {
        let x = obelisks[i];
        proof {
            assert(sv.take((i + 1) as int).drop_last() =~= sv.take(i as int));
            assert(sv.take((i + 1) as int).last() == sv[i as int]);
        }
        match expand_memo(x, pull_count, &mut ctx) {
            Result::Err(e) => {
                proof {
                    if expand_fits(sv[i as int] as nat, t) {
                        lemma_total_elem(sv, t, i as int);
                    }
                }
                return Result::Err(ExpansionError::CountOverflow);
            },
            Result::Ok(c) => {
                proof {
                    lemma_total_prefix(sv, t, (i + 1) as int);
                }
                match total.checked_add(c) {
                    Option::None => {
                        return Result::Err(ExpansionError::CountOverflow);
                    },
                    Option::Some(s) => {
                        total = s;
                    },
                }
            },
        }
        i = i + 1;
    }
    proof {
        assert(sv.take(sv.len() as int) =~= sv);
    }
    Result::Ok(total)
}

/// Total number of stones after `pull_count` rounds, for workloads whose
/// expansion is known to stay within 128 bits.
pub fn reference_obelisk_count(obelisks: &[u128], pull_count: usize) -> (r: u128)
    requires
        all_fit(obelisks@, pull_count as nat),
        total_count(obelisks@, pull_count as nat) <= u128::MAX,
    ensures
        r as nat == total_count(obelisks@, pull_count as nat),
{
    match obelisk_count(obelisks, pull_count) {
        Result::Ok(c) => c,
        Result::Err(_) => 0,
    }
}

} // verus!

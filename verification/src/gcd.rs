//! Greatest common divisors: a Euclidean specification, the classical
//! divisibility lemmas about it, and verified binary-GCD (Stein) routines
//! used by the pairwise GCD reference computation.

use vstd::prelude::*;
use rayon::iter::IntoParallelRefIterator;
use rayon::iter::ParallelIterator;
use crate::numfmt::dec_str;
use crate::numfmt::parse_i64_spec;
use crate::numfmt::parse_u128_spec;
use crate::numfmt::parse_i64;
use crate::numfmt::parse_u128;
use crate::numfmt::u128_to_chars;
use crate::text::chars_to_string;
use crate::text::join_spaces;
use crate::text::join_tokens;
use crate::text::str_to_chars;
use crate::text::tokenize;
use crate::text::tokenize_vec;
use vstd::arithmetic::div_mod::lemma_fundamental_div_mod;
use vstd::arithmetic::div_mod::lemma_fundamental_div_mod_converse;
use vstd::arithmetic::power2::pow2;
use vstd::arithmetic::power2::lemma2_to64;
use vstd::arithmetic::power2::lemma_pow2_unfold;
use vstd::arithmetic::power2::lemma_pow2_pos;
use vstd::arithmetic::power2::lemma_pow2_strictly_increases;

verus! {

/// `d` divides `x`: some integer multiple of `d` equals `x`.
pub open spec fn divides(d: int, x: int) -> bool {
    exists|k: int| x == #[trigger] (d * k)
}

/// Euclidean greatest common divisor of two natural numbers.
/// This is the specification every GCD routine in this crate is held to.
pub open spec fn gcd_nat(a: nat, b: nat) -> nat
    decreases b,
{
    if b == 0 {
        a
    } else {
        gcd_nat(b, a % b)
    }
}

/// The magnitude of an integer, as a natural number.
pub open spec fn abs_nat(x: int) -> nat {
    if x >= 0 {
        x as nat
    } else {
        (-x) as nat
    }
}

pub proof fn lemma_divides_refl(x: int)
    ensures
        divides(x, x),
{
    assert(x == x * 1);
}

pub proof fn lemma_divides_zero(d: int)
    ensures
        divides(d, 0),
{
    assert(0int == d * 0);
}

/// Divisibility is closed under integer linear combinations.
pub proof fn lemma_divides_linear(d: int, x: int, y: int, p: int, q: int)
    requires
        divides(d, x),
        divides(d, y),
    ensures
        divides(d, p * x + q * y),
{
    let k1 = choose|k: int| x == #[trigger] (d * k);
    let k2 = choose|k: int| y == #[trigger] (d * k);
    assert(p * x + q * y == d * (p * k1 + q * k2)) by (nonlinear_arith)
        requires
            x == d * k1,
            y == d * k2,
    ;
}

/// A positive divisor of a positive number is no larger than it.
pub proof fn lemma_divides_le(d: int, x: int)
    requires
        divides(d, x),
        d > 0,
        x > 0,
    ensures
        d <= x,
{
    let k = choose|k: int| x == #[trigger] (d * k);
    assert(k >= 1 && d * k >= d * 1) by (nonlinear_arith)
        requires
            x == d * k,
            d > 0,
            x > 0,
    ;
}

/// Two non-negative integers that divide each other are equal.
pub proof fn lemma_mutual_divides(x: int, y: int)
    requires
        x >= 0,
        y >= 0,
        divides(x, y),
        divides(y, x),
    ensures
        x == y,
{
    if x == 0 {
        let k = choose|k: int| y == #[trigger] (x * k);
        assert(y == 0 * k == 0);
    } else if y == 0 {
        let m = choose|m: int| x == #[trigger] (y * m);
        assert(x == 0 * m == 0);
    } else {
        lemma_divides_le(x, y);
        lemma_divides_le(y, x);
    }
}

/// `gcd_nat(a, b)` divides both arguments, and every common divisor of the
/// arguments divides it.
pub proof fn lemma_gcd_props(a: nat, b: nat)
    ensures
        divides(gcd_nat(a, b) as int, a as int),
        divides(gcd_nat(a, b) as int, b as int),
        forall|d: int|
            divides(d, a as int) && divides(d, b as int) ==> divides(d, gcd_nat(a, b) as int),
    decreases b,
{
    let g = gcd_nat(a, b) as int;
    if b == 0 {
        lemma_divides_refl(a as int);
        lemma_divides_zero(a as int);
    } else {
        lemma_gcd_props(b, a % b);
        lemma_fundamental_div_mod(a as int, b as int);
        let q = a as int / b as int;
        // g divides b and a % b, hence divides a = q * b + 1 * (a % b).
        lemma_divides_linear(g, b as int, (a % b) as int, q, 1);
        assert(q * (b as int) + 1 * ((a % b) as int) == a as int);
        assert forall|d: int|
            divides(d, a as int) && divides(d, b as int) implies divides(d, g) by {
            // d divides a % b = 1 * a + (-q) * b.
            lemma_divides_linear(d, a as int, b as int, 1, -q);
            assert(1 * (a as int) + (-q) * (b as int) == (a % b) as int) by (nonlinear_arith)
                requires
                    a as int == (b as int) * q + (a % b) as int,
            ;
        }
    }
}

/// The GCD of two numbers, at least one positive, is positive.
pub proof fn lemma_gcd_pos(a: nat, b: nat)
    requires
        a > 0 || b > 0,
    ensures
        gcd_nat(a, b) > 0,
    decreases b,
{
    if b != 0 {
        lemma_gcd_pos(b, a % b);
    }
}

/// Any non-negative common divisor that all common divisors divide is
/// exactly `gcd_nat(a, b)`.
pub proof fn lemma_gcd_characterization(a: nat, b: nat, g: int)
    requires
        g >= 0,
        divides(g, a as int),
        divides(g, b as int),
        forall|d: int| divides(d, a as int) && divides(d, b as int) ==> divides(d, g),
    ensures
        g == gcd_nat(a, b),
{
    lemma_gcd_props(a, b);
    lemma_mutual_divides(g, gcd_nat(a, b) as int);
}

/// The GCD is symmetric in its arguments.
pub proof fn lemma_gcd_comm(a: nat, b: nat)
    ensures
        gcd_nat(a, b) == gcd_nat(b, a),
{
    lemma_gcd_props(b, a);
    lemma_gcd_characterization(a, b, gcd_nat(b, a) as int);
}

/// Adding one argument to the other leaves the GCD unchanged.
pub proof fn lemma_gcd_add(a: nat, b: nat)
    ensures
        gcd_nat(a, (b + a) as nat) == gcd_nat(a, b),
{
    let g = gcd_nat(a, b) as int;
    lemma_gcd_props(a, b);
    lemma_divides_linear(g, b as int, a as int, 1, 1);
    assert(1 * (b as int) + 1 * (a as int) == (b + a) as int);
    assert forall|d: int|
        divides(d, a as int) && divides(d, (b + a) as int) implies divides(d, g) by {
        lemma_divides_linear(d, (b + a) as int, a as int, 1, -1);
        assert(1 * ((b + a) as int) + (-1) * (a as int) == b as int);
    }
    lemma_gcd_characterization(a, (b + a) as nat, g);
}

/// Doubling both arguments doubles the GCD.
pub proof fn lemma_gcd_double(a: nat, b: nat)
    ensures
        gcd_nat((2 * a) as nat, (2 * b) as nat) == 2 * gcd_nat(a, b),
    decreases b,
{
    if b != 0 {
        lemma_fundamental_div_mod(a as int, b as int);
        let q = a as int / b as int;
        let r = (a % b) as int;
        assert(2 * (a as int) == q * (2 * (b as int)) + 2 * r) by (nonlinear_arith)
            requires
                a as int == (b as int) * q + r,
        ;
        lemma_fundamental_div_mod_converse(2 * (a as int), 2 * (b as int), q, 2 * r);
        assert((2 * a) as nat % (2 * b) as nat == (2 * r) as nat);
        lemma_gcd_double(b, a % b);
    }
}

/// An odd number dividing a doubled value divides the value itself.
pub proof fn lemma_odd_divides_half(d: int, m: int)
    requires
        d % 2 != 0,
        divides(d, 2 * m),
    ensures
        divides(d, m),
{
    let k = choose|k: int| 2 * m == #[trigger] (d * k);
    if k % 2 == 0 {
        assert(2 * m == d * (2 * (k / 2))) by (nonlinear_arith)
            requires
                2 * m == d * k,
                k == 2 * (k / 2),
        ;
        assert(2 * m == 2 * (d * (k / 2))) by (nonlinear_arith)
            requires
                2 * m == d * (2 * (k / 2)),
        ;
        assert(m == d * (k / 2));
    } else {
        // d odd and k odd would make d * k odd, but 2 * m is even.
        assert(d * k == 2 * (2 * (d / 2) * (k / 2) + d / 2 + k / 2) + 1) by (nonlinear_arith)
            requires
                d == 2 * (d / 2) + 1,
                k == 2 * (k / 2) + 1,
        ;
        assert(false);
    }
}

/// Halving an even argument paired with an odd one leaves the GCD unchanged.
pub proof fn lemma_gcd_halve_right(a: nat, b: nat)
    requires
        a % 2 == 1,
        b % 2 == 0,
    ensures
        gcd_nat(a, b / 2) == gcd_nat(a, b),
{
    let h = b / 2;
    let g = gcd_nat(a, h) as int;
    lemma_gcd_props(a, h);
    // g divides b == 2 * h.
    lemma_divides_linear(g, h as int, a as int, 2, 0);
    assert(2 * (h as int) + 0 * (a as int) == b as int);
    assert forall|d: int|
        divides(d, a as int) && divides(d, b as int) implies divides(d, g) by {
        let k = choose|k: int| a as int == #[trigger] (d * k);
        if d % 2 == 0 {
            assert(a as int == 2 * ((d / 2) * k)) by (nonlinear_arith)
                requires
                    a as int == d * k,
                    d == 2 * (d / 2),
            ;
            assert(false);
        }
        assert(2 * (h as int) == b as int);
        lemma_odd_divides_half(d, h as int);
    }
    lemma_gcd_characterization(a, b, g);
}

/// The GCD of zero and `b` is `b`.
pub proof fn lemma_gcd_zero_left(b: nat)
    ensures
        gcd_nat(0, b) == b,
{
    if b != 0 {
        assert(0nat % b == 0);
        assert(gcd_nat(0, b) == gcd_nat(b, 0nat % b));
        assert(gcd_nat(b, 0) == b);
    }
}

/// The GCD of `a` and zero is `a`.
pub proof fn lemma_gcd_zero_right(a: nat)
    ensures
        gcd_nat(a, 0) == a,
{
}

/// No common divisor exceeds the GCD: it really is the greatest one.
pub proof fn lemma_gcd_greatest(a: nat, b: nat, d: int)
    requires
        d > 0,
        a > 0 || b > 0,
        divides(d, a as int),
        divides(d, b as int),
    ensures
        d <= gcd_nat(a, b),
{
    lemma_gcd_props(a, b);
    lemma_gcd_pos(a, b);
    lemma_divides_le(d, gcd_nat(a, b) as int);
}

/// A power of two bounded by a number below `pow2(blog)` has exponent below `blog`.
pub proof fn lemma_pow2_exponent_bound(e: nat, bound: nat, blog: nat)
    requires
        pow2(e) <= bound,
        bound < pow2(blog),
    ensures
        e < blog,
{
    if e >= blog {
        if e > blog {
            lemma_pow2_strictly_increases(blog, e);
        }
        assert(false);
    }
}

/// Binary (Stein) GCD on 64-bit values: factors of two are stripped by
/// halving, the odd remainders are reduced by subtraction, and the shared
/// power of two is restored at the end.
#[verifier::loop_isolation(false)]
pub fn gcd_u64(a0: u64, b0: u64) -> (r: u64)
    ensures
        r as nat == gcd_nat(a0 as nat, b0 as nat),
{
    if a0 == 0 {
        proof {
            lemma_gcd_zero_left(b0 as nat);
        }
        return b0;
    }
    if b0 == 0 {
        return a0;
    }
    let ghost gtotal = gcd_nat(a0 as nat, b0 as nat);
    proof {
        lemma_gcd_props(a0 as nat, b0 as nat);
        lemma_gcd_pos(a0 as nat, b0 as nat);
        lemma_divides_le(gtotal as int, a0 as int);
        lemma2_to64();
    }
    let mut a = a0;
    let mut b = b0;
    let mut shift: u32 = 0;

    // Strip the common factors of two, remembering how many there were.
    while a % 2 == 0 && b % 2 == 0
        invariant
            1 <= a,
            1 <= b,
            gcd_nat(a as nat, b as nat) * pow2(shift as nat) == gtotal,
            pow2(shift as nat) * (a as nat) <= a0 as nat,
            shift < 64,
        decreases a,
    {
        proof {
            lemma_gcd_double((a / 2) as nat, (b / 2) as nat);
            lemma_pow2_unfold((shift + 1) as nat);
            assert(gcd_nat((a / 2) as nat, (b / 2) as nat) * pow2((shift + 1) as nat)
                == gcd_nat(a as nat, b as nat) * pow2(shift as nat)) by (nonlinear_arith)
                requires
                    gcd_nat(a as nat, b as nat) == 2 * gcd_nat((a / 2) as nat, (b / 2) as nat),
                    pow2((shift + 1) as nat) == 2 * pow2(shift as nat),
            ;
            assert(pow2((shift + 1) as nat) * ((a / 2) as nat) == pow2(shift as nat) * (a as nat))
                by (nonlinear_arith)
                requires
                    a as int == 2 * (a as int / 2),
                    pow2((shift + 1) as nat) == 2 * pow2(shift as nat),
            ;
            assert(pow2((shift + 1) as nat) * 1 <= pow2((shift + 1) as nat) * ((a / 2) as nat))
                by (nonlinear_arith)
                requires
                    1 <= (a / 2) as nat,
                    0 <= pow2((shift + 1) as nat),
            ;
            lemma_pow2_exponent_bound((shift + 1) as nat, a0 as nat, 64);
        }
        a = a / 2;
        b = b / 2;
        shift = shift + 1;
    }

    // Strip the remaining factors of two from `a`; its partner is odd by now.
    while a % 2 == 0
        invariant
            1 <= a,
            1 <= b,
            a % 2 == 0 ==> b % 2 == 1,
            gcd_nat(a as nat, b as nat) * pow2(shift as nat) == gtotal,
        decreases a,
    {
        proof {
            lemma_gcd_comm(a as nat, b as nat);
            lemma_gcd_halve_right(b as nat, a as nat);
            lemma_gcd_comm((a / 2) as nat, b as nat);
        }
        a = a / 2;
    }

    // Subtraction loop on odd values.
    while b != 0
        invariant
            1 <= a,
            a % 2 == 1,
            gcd_nat(a as nat, b as nat) * pow2(shift as nat) == gtotal,
        decreases a + b,
    {
        let ghost b_entry = b;
        while b % 2 == 0
            invariant
                1 <= b,
                b <= b_entry,
                gcd_nat(a as nat, b as nat) * pow2(shift as nat) == gtotal,
            decreases b,
        {
            proof {
                lemma_gcd_halve_right(a as nat, b as nat);
            }
            b = b / 2;
        }
        if a > b {
            let t = a;
            a = b;
            b = t;
            proof {
                lemma_gcd_comm(a as nat, b as nat);
            }
        }
        proof {
            lemma_gcd_add(a as nat, (b - a) as nat);
        }
        b = b - a;
    }

    // Restore the shared power of two; the result stays within the original bound.
    while shift > 0
        invariant
            1 <= a,
            (a as nat) * pow2(shift as nat) == gtotal,
        decreases shift,
    {
        proof {
            lemma_pow2_unfold(shift as nat);
            lemma_pow2_pos((shift - 1) as nat);
            assert((a as nat) * pow2(shift as nat) == ((2 * a) as nat) * pow2((shift - 1) as nat))
                by (nonlinear_arith)
                requires
                    pow2(shift as nat) == 2 * pow2((shift - 1) as nat),
            ;
            assert(((2 * a) as int) * 1 <= ((2 * a) as int) * (pow2((shift - 1) as nat) as int))
                by (nonlinear_arith)
                requires
                    1 <= pow2((shift - 1) as nat),
                    0 <= 2 * (a as int),
            ;
        }
        a = a * 2;
        shift = shift - 1;
    }
    proof {
        lemma2_to64();
        assert((a as nat) * 1 == a as nat);
    }
    a
}

/// Binary (Stein) GCD on 128-bit values, mirroring `gcd_u64`.
#[verifier::loop_isolation(false)]
pub fn stein_gcd_large_capacity(a0: u128, b0: u128) -> (r: u128)
    ensures
        r as nat == gcd_nat(a0 as nat, b0 as nat),
{
    if a0 == 0 {
        proof {
            lemma_gcd_zero_left(b0 as nat);
        }
        return b0;
    }
    if b0 == 0 {
        return a0;
    }
    let ghost gtotal = gcd_nat(a0 as nat, b0 as nat);
    proof {
        lemma_gcd_props(a0 as nat, b0 as nat);
        lemma_gcd_pos(a0 as nat, b0 as nat);
        lemma_divides_le(gtotal as int, a0 as int);
        lemma2_to64();
        vstd::arithmetic::power2::lemma_pow2_adds(64, 64);
        assert(pow2(128) > u128::MAX) by (nonlinear_arith)
            requires
                pow2(128) == pow2(64) * pow2(64),
                pow2(64) == 0x10000000000000000,
        ;
    }
    let mut a = a0;
    let mut b = b0;
    let mut shift: u32 = 0;

    while a % 2 == 0 && b % 2 == 0
        invariant
            1 <= a,
            1 <= b,
            gcd_nat(a as nat, b as nat) * pow2(shift as nat) == gtotal,
            pow2(shift as nat) * (a as nat) <= a0 as nat,
            shift < 128,
        decreases a,
    {
        proof {
            lemma_gcd_double((a / 2) as nat, (b / 2) as nat);
            lemma_pow2_unfold((shift + 1) as nat);
            assert(gcd_nat((a / 2) as nat, (b / 2) as nat) * pow2((shift + 1) as nat)
                == gcd_nat(a as nat, b as nat) * pow2(shift as nat)) by (nonlinear_arith)
                requires
                    gcd_nat(a as nat, b as nat) == 2 * gcd_nat((a / 2) as nat, (b / 2) as nat),
                    pow2((shift + 1) as nat) == 2 * pow2(shift as nat),
            ;
            assert(pow2((shift + 1) as nat) * ((a / 2) as nat) == pow2(shift as nat) * (a as nat))
                by (nonlinear_arith)
                requires
                    a as int == 2 * (a as int / 2),
                    pow2((shift + 1) as nat) == 2 * pow2(shift as nat),
            ;
            assert(pow2((shift + 1) as nat) * 1 <= pow2((shift + 1) as nat) * ((a / 2) as nat))
                by (nonlinear_arith)
                requires
                    1 <= (a / 2) as nat,
                    0 <= pow2((shift + 1) as nat),
            ;
            lemma_pow2_exponent_bound((shift + 1) as nat, a0 as nat, 128);
        }
        a = a / 2;
        b = b / 2;
        shift = shift + 1;
    }

    while a % 2 == 0
        invariant
            1 <= a,
            1 <= b,
            a % 2 == 0 ==> b % 2 == 1,
            gcd_nat(a as nat, b as nat) * pow2(shift as nat) == gtotal,
        decreases a,
    {
        proof {
            lemma_gcd_comm(a as nat, b as nat);
            lemma_gcd_halve_right(b as nat, a as nat);
            lemma_gcd_comm((a / 2) as nat, b as nat);
        }
        a = a / 2;
    }

    while b != 0
        invariant
            1 <= a,
            a % 2 == 1,
            gcd_nat(a as nat, b as nat) * pow2(shift as nat) == gtotal,
        decreases a + b,
    {
        let ghost b_entry = b;
        while b % 2 == 0
            invariant
                1 <= b,
                b <= b_entry,
                gcd_nat(a as nat, b as nat) * pow2(shift as nat) == gtotal,
            decreases b,
        {
            proof {
                lemma_gcd_halve_right(a as nat, b as nat);
            }
            b = b / 2;
        }
        if a > b {
            let t = a;
            a = b;
            b = t;
            proof {
                lemma_gcd_comm(a as nat, b as nat);
            }
        }
        proof {
            lemma_gcd_add(a as nat, (b - a) as nat);
        }
        b = b - a;
    }

    while shift > 0
        invariant
            1 <= a,
            (a as nat) * pow2(shift as nat) == gtotal,
        decreases shift,
    {
        proof {
            lemma_pow2_unfold(shift as nat);
            lemma_pow2_pos((shift - 1) as nat);
            assert((a as nat) * pow2(shift as nat) == ((2 * a) as nat) * pow2((shift - 1) as nat))
                by (nonlinear_arith)
                requires
                    pow2(shift as nat) == 2 * pow2((shift - 1) as nat),
            ;
            assert(((2 * a) as int) * 1 <= ((2 * a) as int) * (pow2((shift - 1) as nat) as int))
                by (nonlinear_arith)
                requires
                    1 <= pow2((shift - 1) as nat),
                    0 <= 2 * (a as int),
            ;
        }
        a = a * 2;
        shift = shift - 1;
    }
    proof {
        lemma2_to64();
        assert((a as nat) * 1 == a as nat);
    }
    a
}

/// The magnitude of a signed 64-bit value, widened so that even
/// `i64::MIN` has a representable absolute value.
pub fn abs_u64(x: i64) -> (r: u64)
    ensures
        r as nat == abs_nat(x as int),
{
    if x >= 0 {
        x as u64
    } else if x == i64::MIN {
        9223372036854775808u64
    } else {
        (-x) as u64
    }
}

/// Binary (Stein) GCD of two signed 64-bit values, computed on their
/// magnitudes. The result is returned as `u64` so that pairs involving
/// `i64::MIN` still have a representable answer.
pub fn stein_gcd(a: i64, b: i64) -> (r: u64)
    ensures
        r as nat == gcd_nat(abs_nat(a as int), abs_nat(b as int)),
{
    let am = abs_u64(a);
    let bm = abs_u64(b);
    gcd_u64(am, bm)
}

/// Euclid's algorithm on the magnitudes of two signed values: the
/// independent reference that the binary GCD routines are compared against.
/// Both meet the same contract, so the two algorithms agree on every input.
#[verifier::loop_isolation(false)]
pub fn euclid_gcd(a: i64, b: i64) -> (r: u64)
    ensures
        r as nat == gcd_nat(abs_nat(a as int), abs_nat(b as int)),
{
    let mut x = abs_u64(a);
    let mut y = abs_u64(b);
    while y != 0
        invariant
            gcd_nat(x as nat, y as nat) == gcd_nat(abs_nat(a as int), abs_nat(b as int)),
        decreases y,
    {
        let t = y;
        y = x % y;
        x = t;
    }
    x
}

/// The `i64` values among a token list, in order; unparsable tokens are skipped.
pub open spec fn parse_all_i64(ts: Seq<Seq<char>>) -> Seq<i64>
    decreases ts.len(),
{
    if ts.len() == 0 {
        Seq::empty()
    } else {
        parse_all_i64(ts.drop_last()) + (match parse_i64_spec(ts.last()) {
            Option::Some(v) => seq![v],
            Option::None => Seq::empty(),
        })
    }
}

/// The `u128` values among a token list, in order; unparsable tokens are skipped.
pub open spec fn parse_all_u128(ts: Seq<Seq<char>>) -> Seq<u128>
    decreases ts.len(),
{
    if ts.len() == 0 {
        Seq::empty()
    } else {
        parse_all_u128(ts.drop_last()) + (match parse_u128_spec(ts.last()) {
            Option::Some(v) => seq![v],
            Option::None => Seq::empty(),
        })
    }
}

/// The `i64` values parsed from the whitespace tokens of `s`.
pub open spec fn parsed_i64s(s: Seq<char>) -> Seq<i64> {
    parse_all_i64(tokenize(s))
}

/// The `u128` values parsed from the whitespace tokens of `s`.
pub open spec fn parsed_u128s(s: Seq<char>) -> Seq<u128> {
    parse_all_u128(tokenize(s))
}

/// The per-pair GCDs of consecutive, non-overlapping pairs.
pub open spec fn gcd_pair_results(nums: Seq<i64>) -> Seq<nat> {
    Seq::new(
        (nums.len() / 2) as nat,
        |i: int| gcd_nat(abs_nat(nums[2 * i] as int), abs_nat(nums[2 * i + 1] as int)),
    )
}

/// The per-pair GCDs of consecutive, non-overlapping `u128` pairs.
pub open spec fn gcd_pair_results_u128(nums: Seq<u128>) -> Seq<nat> {
    Seq::new(
        (nums.len() / 2) as nat,
        |i: int| gcd_nat(nums[2 * i] as nat, nums[2 * i + 1] as nat),
    )
}

/// The output text: the per-pair GCDs in decimal, joined with single spaces.
pub open spec fn gcd_output(nums: Seq<i64>) -> Seq<char> {
    join_spaces(gcd_pair_results(nums).map_values(|g: nat| dec_str(g)))
}

/// The output text for the 128-bit variant.
pub open spec fn gcd_output_u128(nums: Seq<u128>) -> Seq<char> {
    join_spaces(gcd_pair_results_u128(nums).map_values(|g: nat| dec_str(g)))
}

/// A GCD workload whose numbers do not form whole pairs is corrupted: no
/// trusted reference answer can be produced from it.
#[derive(Debug, PartialEq, Eq, Structural)]
pub enum WorkloadError {
    MalformedWorkload,
}

/// Every token parsed as `i64`, unparsable tokens skipped.
#[verifier::loop_isolation(false)]
fn parse_tokens_i64(toks: &Vec<Vec<char>>) -> (r: Vec<i64>)
    ensures
        r@ == parse_all_i64(toks.deep_view()),
{
    let ghost dv = toks.deep_view();
    let mut out: Vec<i64> = Vec::new();
    let mut i: usize = 0;
    proof {
        assert(dv.take(0) =~= Seq::<Seq<char>>::empty());
        assert(out@ =~= parse_all_i64(dv.take(0)));
    }
    while i < toks.len()
        invariant
            i <= toks.len(),
            dv == toks.deep_view(),
            dv.len() == toks@.len(),
            out@ == parse_all_i64(dv.take(i as int)),
        decreases toks.len() - i,
    {
        let ghost prev = out@;
        proof {
            assert(toks@[i as int].deep_view() =~= toks@[i as int]@);
            assert(dv.take((i + 1) as int).drop_last() =~= dv.take(i as int));
            assert(dv.take((i + 1) as int).last() == dv[i as int]);
        }
        match parse_i64(&toks[i]) {
            Option::Some(v) => {
                out.push(v);
                proof {
                    assert(out@ =~= prev + seq![v]);
                }
            },
            Option::None => {
                proof {
                    assert(prev + Seq::<i64>::empty() =~= prev);
                }
            },
        }
        i = i + 1;
    }
    proof {
        assert(dv.take(dv.len() as int) =~= dv);
    }
    out
}

/// Every token parsed as `u128`, unparsable tokens skipped.
#[verifier::loop_isolation(false)]
fn parse_tokens_u128(toks: &Vec<Vec<char>>) -> (r: Vec<u128>)
    ensures
        r@ == parse_all_u128(toks.deep_view()),
{
    let ghost dv = toks.deep_view();
    let mut out: Vec<u128> = Vec::new();
    let mut i: usize = 0;
    proof {
        assert(dv.take(0) =~= Seq::<Seq<char>>::empty());
        assert(out@ =~= parse_all_u128(dv.take(0)));
    }
    while i < toks.len()
        invariant
            i <= toks.len(),
            dv == toks.deep_view(),
            dv.len() == toks@.len(),
            out@ == parse_all_u128(dv.take(i as int)),
        decreases toks.len() - i,
    {
        let ghost prev = out@;
        proof {
            assert(toks@[i as int].deep_view() =~= toks@[i as int]@);
            assert(dv.take((i + 1) as int).drop_last() =~= dv.take(i as int));
            assert(dv.take((i + 1) as int).last() == dv[i as int]);
        }
        match parse_u128(&toks[i]) {
            Option::Some(v) => {
                out.push(v);
                proof {
                    assert(out@ =~= prev + seq![v]);
                }
            },
            Option::None => {
                proof {
                    assert(prev + Seq::<u128>::empty() =~= prev);
                }
            },
        }
        i = i + 1;
    }
    proof {
        assert(dv.take(dv.len() as int) =~= dv);
    }
    out
}

/// Relies on rayon's `par_iter().map(..).collect()` on `Vec`: the closure is
/// applied to every element and the results are collected in input order,
/// independent of worker count. The closure only calls the verified
/// `gcd_u64`.
#[verifier::external_body]
fn par_gcd_u64_pairs(pairs: &Vec<(u64, u64)>) -> (r: Vec<u64>)
    ensures
        r@.len() == pairs@.len(),
        forall|i: int|
            0 <= i < pairs@.len() ==> #[trigger] r@[i] as nat == gcd_nat(
                pairs@[i].0 as nat,
                pairs@[i].1 as nat,
            ),
{
    pairs.par_iter().map(|p| gcd_u64(p.0, p.1)).collect()
}

/// Relies on rayon's `par_iter().map(..).collect()` on `Vec`: the closure is
/// applied to every element and the results are collected in input order,
/// independent of worker count. The closure only calls the verified
/// `stein_gcd_large_capacity`.
#[verifier::external_body]
fn par_gcd_u128_pairs(pairs: &Vec<(u128, u128)>) -> (r: Vec<u128>)
    ensures
        r@.len() == pairs@.len(),
        forall|i: int|
            0 <= i < pairs@.len() ==> #[trigger] r@[i] as nat == gcd_nat(
                pairs@[i].0 as nat,
                pairs@[i].1 as nat,
            ),
{
    pairs.par_iter().map(|p| stein_gcd_large_capacity(p.0, p.1)).collect()
}

/// Reference output for the pairwise GCD challenge over signed 64-bit
/// numbers. Whitespace tokens that parse as `i64` form consecutive pairs;
/// each pair's binary GCD is computed (in parallel) and the results are
/// joined with single spaces in pair order. No parsable numbers at all give
/// the sentinel text; an odd number of them is a malformed workload.
#[verifier::loop_isolation(false)]
pub fn reference_gcd(input: &str) -> (r: Result<String, WorkloadError>)
    ensures
        ({
            let nums = parsed_i64s(input@);
            match r {
                Result::Ok(out) => nums.len() % 2 == 0 && (if nums.len() == 0 {
                    out@ == "No valid numbers found"@
                } else {
                    out@ == gcd_output(nums)
                }),
                Result::Err(e) => nums.len() % 2 == 1 && e == WorkloadError::MalformedWorkload,
            }
        }),
{
    let chars = str_to_chars(input);
    let toks = tokenize_vec(&chars);
    let nums = parse_tokens_i64(&toks);
    let ghost nspec = parsed_i64s(input@);
    proof {
        assert(nums@ == nspec);
    }
    if nums.len() == 0 {
        return Result::Ok(String::from_str("No valid numbers found"));
    }
    if nums.len() % 2 == 1 {
        return Result::Err(WorkloadError::MalformedWorkload);
    }
    let half = nums.len() / 2;
    let mut pairs: Vec<(u64, u64)> = Vec::new();
    let mut i: usize = 0;
    while i < half
        invariant
            i <= half,
            half == nums@.len() / 2,
            nums@.len() % 2 == 0,
            pairs@.len() == i,
            forall|j: int|
                0 <= j < i ==> (#[trigger] pairs@[j]).0 as nat == abs_nat(nums@[2 * j] as int)
                    && pairs@[j].1 as nat == abs_nat(nums@[2 * j + 1] as int),
        decreases half - i,
    {
        let a = abs_u64(nums[2 * i]);
        let b = abs_u64(nums[2 * i + 1]);
        pairs.push((a, b));
        i = i + 1;
    }
    let rs = par_gcd_u64_pairs(&pairs);
    let ghost gs = gcd_pair_results(nums@);
    proof {
        assert forall|j: int| 0 <= j < gs.len() implies rs@[j] as nat == gs[j] by {
            assert(rs@[j] as nat == gcd_nat(pairs@[j].0 as nat, pairs@[j].1 as nat));
        }
    }
    let mut toks_out: Vec<Vec<char>> = Vec::new();
    let mut j: usize = 0;
    proof {
        assert(toks_out.deep_view() =~= gs.map_values(|g: nat| dec_str(g)).take(0));
    }
    while j < rs.len()
        invariant
            j <= rs@.len(),
            rs@.len() == gs.len(),
            forall|m: int| 0 <= m < gs.len() ==> #[trigger] rs@[m] as nat == gs[m],
            toks_out.deep_view() == gs.map_values(|g: nat| dec_str(g)).take(j as int),
        decreases rs.len() - j,
    {
        let cs = u128_to_chars(rs[j] as u128);
        let ghost prev = toks_out.deep_view();
        toks_out.push(cs);
        proof {
            assert(cs.deep_view() =~= cs@);
            assert(toks_out.deep_view() =~= prev.push(cs@));
            assert(gs.map_values(|g: nat| dec_str(g)).take((j + 1) as int) =~= gs.map_values(
                |g: nat| dec_str(g),
            ).take(j as int).push(dec_str(gs[j as int])));
        }
        j = j + 1;
    }
    proof {
        let m = gs.map_values(|g: nat| dec_str(g));
        assert(m.take(m.len() as int) =~= m);
    }
    let joined = join_tokens(&toks_out);
    Result::Ok(chars_to_string(&joined))
}

/// Reference output for the pairwise GCD challenge over unsigned 128-bit
/// numbers, mirroring `reference_gcd`.
#[verifier::loop_isolation(false)]
pub fn reference_gcd_large_capacity(input: &str) -> (r: Result<String, WorkloadError>)
    ensures
        ({
            let nums = parsed_u128s(input@);
            match r {
                Result::Ok(out) => nums.len() % 2 == 0 && (if nums.len() == 0 {
                    out@ == "No valid numbers found"@
                } else {
                    out@ == gcd_output_u128(nums)
                }),
                Result::Err(e) => nums.len() % 2 == 1 && e == WorkloadError::MalformedWorkload,
            }
        }),
{
    let chars = str_to_chars(input);
    let toks = tokenize_vec(&chars);
    let nums = parse_tokens_u128(&toks);
    let ghost nspec = parsed_u128s(input@);
    proof {
        assert(nums@ == nspec);
    }
    if nums.len() == 0 {
        return Result::Ok(String::from_str("No valid numbers found"));
    }
    if nums.len() % 2 == 1 {
        return Result::Err(WorkloadError::MalformedWorkload);
    }
    let half = nums.len() / 2;
    let mut pairs: Vec<(u128, u128)> = Vec::new();
    let mut i: usize = 0;
    while i < half
        invariant
            i <= half,
            half == nums@.len() / 2,
            nums@.len() % 2 == 0,
            pairs@.len() == i,
            forall|j: int|
                0 <= j < i ==> (#[trigger] pairs@[j]).0 == nums@[2 * j] && pairs@[j].1 == nums@[2
                    * j + 1],
        decreases half - i,
    {
        let a = nums[2 * i];
        let b = nums[2 * i + 1];
        pairs.push((a, b));
        i = i + 1;
    }
    let rs = par_gcd_u128_pairs(&pairs);
    let ghost gs = gcd_pair_results_u128(nums@);
    proof {
        assert forall|j: int| 0 <= j < gs.len() implies rs@[j] as nat == gs[j] by {
            assert(rs@[j] as nat == gcd_nat(pairs@[j].0 as nat, pairs@[j].1 as nat));
        }
    }
    let mut toks_out: Vec<Vec<char>> = Vec::new();
    let mut j: usize = 0;
    proof {
        assert(toks_out.deep_view() =~= gs.map_values(|g: nat| dec_str(g)).take(0));
    }
    while j < rs.len()
        invariant
            j <= rs@.len(),
            rs@.len() == gs.len(),
            forall|m: int| 0 <= m < gs.len() ==> #[trigger] rs@[m] as nat == gs[m],
            toks_out.deep_view() == gs.map_values(|g: nat| dec_str(g)).take(j as int),
        decreases rs.len() - j,
    {
        let cs = u128_to_chars(rs[j]);
        let ghost prev = toks_out.deep_view();
        toks_out.push(cs);
        proof {
            assert(cs.deep_view() =~= cs@);
            assert(toks_out.deep_view() =~= prev.push(cs@));
            assert(gs.map_values(|g: nat| dec_str(g)).take((j + 1) as int) =~= gs.map_values(
                |g: nat| dec_str(g),
            ).take(j as int).push(dec_str(gs[j as int])));
        }
        j = j + 1;
    }
    proof {
        let m = gs.map_values(|g: nat| dec_str(g));
        assert(m.take(m.len() as int) =~= m);
    }
    let joined = join_tokens(&toks_out);
    Result::Ok(chars_to_string(&joined))
}

} // verus!

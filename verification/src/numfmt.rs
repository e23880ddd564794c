//! Decimal formatting and parsing: rendering naturals as digit strings,
//! parsing signed and unsigned integers the way the reference workloads are
//! read, and the human-readable size formatting used for workload names.

use vstd::prelude::*;
use crate::text::chars_to_string;
use crate::text::rev_seq;
use crate::text::reverse_chars;

verus! {

/// The decimal digit character for `d`.
pub open spec fn digit_char(d: nat) -> char {
    if d == 0 {
        '0'
    } else if d == 1 {
        '1'
    } else if d == 2 {
        '2'
    } else if d == 3 {
        '3'
    } else if d == 4 {
        '4'
    } else if d == 5 {
        '5'
    } else if d == 6 {
        '6'
    } else if d == 7 {
        '7'
    } else if d == 8 {
        '8'
    } else {
        '9'
    }
}

/// The decimal representation of `n`, without leading zeros (except for the
/// single digit of zero itself).
pub open spec fn dec_str(n: nat) -> Seq<char>
    decreases n,
{
    if n < 10 {
        seq![digit_char(n)]
    } else {
        dec_str(n / 10).push(digit_char(n % 10))
    }
}

/// An ASCII decimal digit.
pub open spec fn is_digit(c: char) -> bool {
    0x30 <= c as u32 && c as u32 <= 0x39
}

/// The numeric value of a digit character (zero for non-digits).
pub open spec fn digit_val(c: char) -> nat {
    if is_digit(c) {
        (c as u32 - 0x30) as nat
    } else {
        0
    }
}

/// Every character is an ASCII decimal digit.
pub open spec fn all_digits(s: Seq<char>) -> bool {
    forall|i: int| 0 <= i < s.len() ==> is_digit(#[trigger] s[i])
}

/// The value of a digit string, most significant digit first.
pub open spec fn digits_val(s: Seq<char>) -> nat
    decreases s.len(),
{
    if s.len() == 0 {
        0
    } else {
        digits_val(s.drop_last()) * 10 + digit_val(s.last())
    }
}

/// What `str::parse::<i64>` accepts: an optional sign followed by at least
/// one digit, with the value in range; anything else is rejected.
pub open spec fn parse_i64_spec(t: Seq<char>) -> Option<i64> {
    if t.len() == 0 {
        Option::None
    } else {
        let neg = t[0] == '-';
        let ds = if t[0] == '+' || t[0] == '-' {
            t.drop_first()
        } else {
            t
        };
        if ds.len() == 0 || !all_digits(ds) {
            Option::None
        } else {
            let v = digits_val(ds) as int;
            if !neg && v <= i64::MAX {
                Option::Some(v as i64)
            } else if neg && v <= 0x8000000000000000 {
                Option::Some((-v) as i64)
            } else {
                Option::None
            }
        }
    }
}

/// What `str::parse::<u128>` accepts: an optional plus sign followed by at
/// least one digit, with the value in range.
pub open spec fn parse_u128_spec(t: Seq<char>) -> Option<u128> {
    if t.len() == 0 {
        Option::None
    } else {
        let ds = if t[0] == '+' {
            t.drop_first()
        } else {
            t
        };
        if ds.len() == 0 || !all_digits(ds) {
            Option::None
        } else if digits_val(ds) <= u128::MAX {
            Option::Some(digits_val(ds) as u128)
        } else {
            Option::None
        }
    }
}

/// A digit string is worth at least as much as any of its prefixes.
pub proof fn lemma_digits_val_prefix(s: Seq<char>, m: int)
    requires
        0 <= m <= s.len(),
    ensures
        digits_val(s) >= digits_val(s.take(m)),
    decreases s.len(),
{
    if m == s.len() {
        assert(s.take(m) =~= s);
    } else {
        lemma_digits_val_prefix(s.drop_last(), m);
        assert(s.drop_last().take(m) =~= s.take(m));
        assert(digits_val(s) == digits_val(s.drop_last()) * 10 + digit_val(s.last()));
        assert(digits_val(s.drop_last()) * 10 >= digits_val(s.drop_last()) * 1) by (nonlinear_arith)
            requires
                digits_val(s.drop_last()) >= 0,
        ;
    }
}

/// The exec counterpart of `digit_char`.
fn digit_to_char(d: u8) -> (c: char)
    requires
        d < 10,
    ensures
        c == digit_char(d as nat),
{
    if d == 0 {
        '0'
    } else if d == 1 {
        '1'
    } else if d == 2 {
        '2'
    } else if d == 3 {
        '3'
    } else if d == 4 {
        '4'
    } else if d == 5 {
        '5'
    } else if d == 6 {
        '6'
    } else if d == 7 {
        '7'
    } else if d == 8 {
        '8'
    } else {
        '9'
    }
}

/// The decimal digit characters of `x`.
#[verifier::loop_isolation(false)]
pub fn u128_to_chars(x: u128) -> (r: Vec<char>)
    ensures
        r@ == dec_str(x as nat),
{
    let mut tmp: Vec<char> = Vec::new();
    let mut n = x;
    proof {
        assert(rev_seq(tmp@) =~= Seq::<char>::empty());
        assert(dec_str(n as nat) + Seq::<char>::empty() =~= dec_str(n as nat));
    }
    while n >= 10
        invariant
            dec_str(x as nat) == dec_str(n as nat) + rev_seq(tmp@),
        decreases n,
    {
        let d = (n % 10) as u8;
        let ghost prev = tmp@;
        tmp.push(digit_to_char(d));
        proof {
            assert(rev_seq(prev.push(digit_char(d as nat))) =~= seq![
                digit_char(d as nat),
            ] + rev_seq(prev));
            assert(dec_str(n as nat) == dec_str((n / 10) as nat).push(digit_char((n % 10) as nat)));
            assert(dec_str((n / 10) as nat) + (seq![digit_char(d as nat)] + rev_seq(prev)) =~= (
            dec_str((n / 10) as nat).push(digit_char(d as nat))) + rev_seq(prev));
        }
        n = n / 10;
    }
    let ghost prev = tmp@;
    tmp.push(digit_to_char(n as u8));
    proof {
        assert(dec_str(n as nat) == seq![digit_char(n as nat)]);
        assert(rev_seq(prev.push(digit_char(n as nat))) =~= seq![
            digit_char(n as nat),
        ] + rev_seq(prev));
        assert(dec_str(x as nat) =~= rev_seq(tmp@));
    }
    let out = reverse_chars(&tmp);
    proof {
        crate::text::lemma_rev_rev(tmp@);
    }
    out
}

/// The decimal representation of `x` as a string.
pub fn u128_to_string(x: u128) -> (r: String)
    ensures
        r@ == dec_str(x as nat),
{
    let cs = u128_to_chars(x);
    chars_to_string(&cs)
}

/// Parses the digit run `v[start..]` into a value, rejecting the run if it
/// is empty, contains a non-digit, or exceeds `limit`.
#[verifier::loop_isolation(false)]
fn parse_digits(v: &Vec<char>, start: usize, limit: u128) -> (r: Option<u128>)
    requires
        start <= v@.len(),
    ensures
        ({
            let ds = v@.skip(start as int);
            match r {
                Option::Some(val) => ds.len() > 0 && all_digits(ds) && digits_val(ds) == val
                    && val <= limit,
                Option::None => ds.len() == 0 || !all_digits(ds) || digits_val(ds) > limit,
            }
        }),
{
    let ghost ds = v@.skip(start as int);
    if start == v.len() {
        return Option::None;
    }
    let mut acc: u128 = 0;
    let mut k: usize = start;
    proof {
        assert(ds.take(0) =~= Seq::<char>::empty());
    }
    while k < v.len()
        invariant
            start <= k <= v@.len(),
            ds == v@.skip(start as int),
            ds.len() == v@.len() - start,
            all_digits(ds.take((k - start) as int)),
            acc == digits_val(ds.take((k - start) as int)),
            acc <= limit,
        decreases v@.len() - k,
    {
        let c = v[k];
        let u = c as u32;
        proof {
            assert(ds[(k - start) as int] == v@[k as int]);
        }
        if u < 0x30 || u > 0x39 {
            proof {
                assert(!is_digit(ds[(k - start) as int]));
            }
            return Option::None;
        }
        let d = (u - 0x30) as u128;
        let ghost pre = ds.take((k - start) as int);
        let ghost pre1 = ds.take((k + 1 - start) as int);
        proof {
            assert(pre1.drop_last() =~= pre);
            assert(pre1.last() == ds[(k - start) as int]);
            assert(digits_val(pre1) == acc * 10 + d);
            lemma_digits_val_prefix(ds, (k + 1 - start) as int);
        }
        let next = match acc.checked_mul(10) {
            Option::Some(m) => m.checked_add(d),
            Option::None => Option::None,
        };
        match next {
            Option::None => {
                proof {
                    assert(digits_val(pre1) > u128::MAX);
                    assert(digits_val(ds) > limit);
                }
                return Option::None;
            },
            Option::Some(na) => {
                if na > limit {
                    proof {
                        assert(digits_val(ds) > limit);
                    }
                    return Option::None;
                }
                acc = na;
            },
        }
        k = k + 1;
    }
    proof {
        assert(ds.take((k - start) as int) =~= ds);
    }
    Option::Some(acc)
}

/// Parses a token exactly as `str::parse::<i64>` would.
pub fn parse_i64(v: &Vec<char>) -> (r: Option<i64>)
    ensures
        r == parse_i64_spec(v@),
{
    if v.len() == 0 {
        return Option::None;
    }
    let c0 = v[0];
    proof {
        assert(v@.skip(1) =~= v@.drop_first());
        assert(v@.skip(0) =~= v@);
    }
    if c0 == '+' {
        match parse_digits(v, 1, 0x7FFFFFFFFFFFFFFF) {
            Option::Some(val) => Option::Some(val as i64),
            Option::None => Option::None,
        }
    } else if c0 == '-' {
        match parse_digits(v, 1, 0x8000000000000000) {
            Option::Some(val) => {
                if val == 0x8000000000000000 {
                    Option::Some(i64::MIN)
                } else {
                    Option::Some(-(val as i64))
                }
            },
            Option::None => Option::None,
        }
    } else {
        match parse_digits(v, 0, 0x7FFFFFFFFFFFFFFF) {
            Option::Some(val) => Option::Some(val as i64),
            Option::None => Option::None,
        }
    }
}

/// Parses a token exactly as `str::parse::<u128>` would.
pub fn parse_u128(v: &Vec<char>) -> (r: Option<u128>)
    ensures
        r == parse_u128_spec(v@),
{
    if v.len() == 0 {
        return Option::None;
    }
    let c0 = v[0];
    proof {
        assert(v@.skip(1) =~= v@.drop_first());
        assert(v@.skip(0) =~= v@);
    }
    if c0 == '+' {
        parse_digits(v, 1, u128::MAX)
    } else {
        parse_digits(v, 0, u128::MAX)
    }
}

/// `n / d` rounded to the nearest integer, ties to the even neighbour.
pub open spec fn round_half_even(n: nat, d: nat) -> nat {
    let q = n / d;
    let r = n % d;
    if 2 * r < d {
        q
    } else if 2 * r > d {
        q + 1
    } else if q % 2 == 0 {
        q
    } else {
        q + 1
    }
}

/// The abbreviated form of `n`: millions as `M`, thousands as `K`, rounded
/// to the nearest unit with ties going to the even neighbour, smaller values
/// printed as they are.
pub open spec fn format_usize_spec(n: nat) -> Seq<char> {
    if n >= 1000000 {
        dec_str(round_half_even(n, 1000000)).push('M')
    } else if n >= 1000 {
        dec_str(round_half_even(n, 1000)).push('K')
    } else {
        dec_str(n)
    }
}

/// Formats a count for display: `2500000` becomes `"2M"`, `1500` becomes
/// `"2K"`, `999` stays `"999"`.
pub fn format_usize(n: usize) -> (r: String)
    ensures
        r@ == format_usize_spec(n as nat),
{
    if n >= 1000000 {
        let q = n / 1000000;
        let rem = n % 1000000;
        let rounded: usize = if 2 * rem < 1000000 {
            q
        } else if 2 * rem > 1000000 {
            q + 1
        } else if q % 2 == 0 {
            q
        } else {
            q + 1
        };
        let mut cs = u128_to_chars(rounded as u128);
        cs.push('M');
        chars_to_string(&cs)
    } else if n >= 1000 {
        let q = n / 1000;
        let rem = n % 1000;
        let rounded: usize = if 2 * rem < 1000 {
            q
        } else if 2 * rem > 1000 {
            q + 1
        } else if q % 2 == 0 {
            q
        } else {
            q + 1
        };
        let mut cs = u128_to_chars(rounded as u128);
        cs.push('K');
        chars_to_string(&cs)
    } else {
        let cs = u128_to_chars(n as u128);
        chars_to_string(&cs)
    }
}

} // verus!

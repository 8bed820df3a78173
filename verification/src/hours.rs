//! Rendering a number of seconds as hours: whole hours as `"8h"`, anything
//! else with one decimal, exactly as the `f64` value `seconds / 3600.0` is
//! printed with `{:.1}`.
//!
//! The one-decimal branch is computed with integers. Its specification spells
//! out the IEEE-754 binary64 arithmetic that the printed value goes through:
//! the conversion of the seconds to `f64`, the division by 3600, and the
//! rounding of the quotient to one decimal place, each rounding to nearest
//! with ties to even.
use vstd::prelude::*;
use crate::text::{decimal, digit, digit_char, push_char, push_decimal};
use vstd::arithmetic::div_mod::lemma_div_denominator;

verus! {

/// 2^52: the smallest significand of a normal binary64 value.
pub open spec fn sig_low() -> nat {
    0x10_0000_0000_0000
}

/// 2^53: one above the largest significand of a binary64 value.
pub open spec fn sig_high() -> nat {
    0x20_0000_0000_0000
}

/// The integer nearest to `n / d`, ties going to the even neighbour.
pub open spec fn div_round_even(n: nat, d: nat) -> nat {
    let q = n / d;
    let r = n % d;
    if 2 * r > d || (2 * r == d && q % 2 == 1) {
        q + 1
    } else {
        q
    }
}

/// The power of two `p >= start` (doubling from `start`) at which `a / p`
/// first drops below 2^53: the weight of the last significand bit when `a`
/// is held as a binary64 value.
pub open spec fn int_scale(a: nat, p: nat) -> nat
    decreases a - p,
{
    if p == 0 || a / p < sig_high() {
        p
    } else {
        proof {
            assert(2 * p <= a) by (nonlinear_arith)
                requires
                    p > 0,
                    a / p >= 2,
            ;
        }
        int_scale(a, 2 * p)
    }
}

/// The binary64 value nearest to the integer `a` (`a as f64`).
pub open spec fn f64_of_int(a: nat) -> nat {
    if a < sig_high() {
        a
    } else {
        let p = int_scale(a, 1);
        div_round_even(a, p) * p
    }
}

/// The power of two `p >= start` (doubling from `start`) at which
/// `x * p / 3600` first reaches 2^52: the reciprocal of the weight of the
/// last significand bit of the binary64 quotient `x / 3600`.
pub open spec fn quotient_scale(x: nat, p: nat) -> nat
    decreases (if x * p < sig_low() * 3600 { sig_low() * 3600 - x * p } else { 0 }),
{
    if x == 0 || p == 0 || x * p / 3600 >= sig_low() {
        p
    } else {
        proof {
            assert(x * (2 * p) == 2 * (x * p)) by (nonlinear_arith);
            assert(x * p >= 1) by (nonlinear_arith)
                requires
                    x >= 1,
                    p >= 1,
            ;
        }
        quotient_scale(x, 2 * p)
    }
}

/// Tenths of an hour printed for `a` seconds: `a` as binary64, divided by
/// 3600 in binary64 (the quotient is `m / p`), rounded to one decimal.
pub open spec fn hour_tenths(a: nat) -> nat {
    let x = f64_of_int(a);
    let p = quotient_scale(x, 1);
    let m = div_round_even(x * p, 3600);
    div_round_even(m * 10, p)
}

/// The text that `format_hours` gives for `seconds`.
pub open spec fn hours_text(seconds: int) -> Seq<char> {
    let a = (if seconds < 0 { -seconds } else { seconds }) as nat;
    if (a / 60) % 60 == 0 {
        let h = (a / 60) / 60;
        (if seconds < 0 && h > 0 { seq!['-'] } else { Seq::<char>::empty() }) + decimal(h)
            + seq!['h']
    } else {
        let t = hour_tenths(a);
        (if seconds < 0 { seq!['-'] } else { Seq::<char>::empty() }) + decimal(t / 10) + seq![
            '.',
            digit_char(t % 10),
            'h',
        ]
    }
}

fn round_even(n: u128, d: u128) -> (r: u128)
    requires
        d > 0,
        d < 0x1000_0000_0000_0000_0000_0000_0000_0000,
        n < 0x1000_0000_0000_0000_0000_0000_0000_0000,
    ensures
        r == div_round_even(n as nat, d as nat),
        r <= n / d + 1,
{
    let q = n / d;
    let r = n % d;
    if 2 * r > d || (2 * r == d && q % 2 == 1) {
        q + 1
    } else {
        q
    }
}

/// `a as f64`, held as an integer.
fn int_as_f64(a: u64) -> (x: u128)
    requires
        a <= 0x8000_0000_0000_0000,
    ensures
        x == f64_of_int(a as nat),
        x <= 0x1_0000_0000_0000_0000,
        a >= 60 ==> x >= 60,
{
    if (a as u128) < 0x20_0000_0000_0000 {
        return a as u128;
    }
    let mut p: u128 = 1;
    while (a as u128) / p >= 0x20_0000_0000_0000
        invariant
            1 <= p <= a,
            p == 1 || p * 0x10_0000_0000_0000 <= a,
            int_scale(a as nat, p as nat) == int_scale(a as nat, 1),
            a <= 0x8000_0000_0000_0000,
        decreases a - p,
    {
        assert(p * 2 <= a && (p * 2) * 0x10_0000_0000_0000 <= a) by (nonlinear_arith)
            requires
                (a as int) / (p as int) >= 0x20_0000_0000_0000,
                p >= 1,
        ;
        p = p * 2;
    }
    assert(p <= 0x800) by (nonlinear_arith)
        requires
            a <= 0x8000_0000_0000_0000,
            p * 0x10_0000_0000_0000 <= a,
    ;
    assert((a as int) / (p as int) >= 0x10_0000_0000_0000) by (nonlinear_arith)
        requires
            p * 0x10_0000_0000_0000 <= a,
            p >= 1,
    ;
    let m = round_even(a as u128, p);
    assert(0x10_0000_0000_0000 <= m <= 0x20_0000_0000_0000);
    assert(60 <= m * p <= 0x1_0000_0000_0000_0000) by (nonlinear_arith)
        requires
            0x10_0000_0000_0000 <= m <= 0x20_0000_0000_0000,
            1 <= p <= 0x800,
    ;
    m * p
}

/// Tenths of an hour printed for `a` seconds (see [`hour_tenths`]).
fn tenths_of_hour(a: u64) -> (t: u128)
    requires
        60 <= a <= 0x8000_0000_0000_0000,
    ensures
        t == hour_tenths(a as nat),
        t <= 0x400_0000_0000_0000,
{
    let x = int_as_f64(a);
    let mut p: u128 = 1;
    let mut n: u128 = x;
    while n / 3600 < 0x10_0000_0000_0000
        invariant
            n == x * p,
            1 <= p <= n,
            60 <= x <= 0x1_0000_0000_0000_0000,
            n < 0x20_0000_0000_0000 * 3600,
            quotient_scale(x as nat, p as nat) == quotient_scale(x as nat, 1),
        decreases 0x20_0000_0000_0000 * 3600 - n,
    {
        assert(x * (2 * p) == 2 * (x * p)) by (nonlinear_arith);
        n = n * 2;
        p = p * 2;
    }
    let m = round_even(n, 3600);
    assert(m * 10 <= 0x20_0000_0000_0000 * 10 + 10);
    let t = round_even(m * 10, p);
    assert((m * 10) as int / (p as int) <= m * 10) by (nonlinear_arith)
        requires
            p >= 1,
    ;
    t
}

/// Renders a number of seconds as hours: `"8h"` for whole hours, otherwise
/// one decimal, as `"7.5h"`.
pub fn format_hours(seconds: i64) -> (res: String)
    ensures
        res@ == hours_text(seconds as int),
{
    let neg = seconds < 0;
    let a: u64 = if neg { (0i128 - seconds as i128) as u64 } else { seconds as u64 };
    let mut res = String::new();
    if (a / 60) % 60 == 0 {
        let h = (a / 60) / 60;
        if neg && h > 0 {
            push_char(&mut res, '-');
        }
        push_decimal(&mut res, h);
        push_char(&mut res, 'h');
    } else {
        let t = tenths_of_hour(a);
        if neg {
            push_char(&mut res, '-');
        }
        push_decimal(&mut res, (t / 10) as u64);
        push_char(&mut res, '.');
        push_char(&mut res, digit((t % 10) as u64));
        push_char(&mut res, 'h');
    }
    assert(res@ =~= hours_text(seconds as int));
    res
}


/// Whole hours are written as the number of hours and `h`: for every number
/// of seconds that is a whole number of hours once cut to whole minutes, the
/// text is the decimal digits of `|seconds| / 3600` (cut toward zero), after
/// a `-` exactly where that quotient is negative.
pub proof fn lemma_whole_hours_text(seconds: int)
    requires
        ((if seconds < 0 { -seconds } else { seconds }) / 60) % 60 == 0,
    ensures
        hours_text(seconds) == (if seconds <= -3600 { seq!['-'] } else { Seq::<char>::empty() })
            + decimal(((if seconds < 0 { -seconds } else { seconds }) / 3600) as nat) + seq!['h'],
{
    let a = if seconds < 0 { -seconds } else { seconds };
    lemma_div_denominator(a, 60, 60);
    assert((a / 60) / 60 == a / 3600);
    assert(a / 3600 > 0 <==> a >= 3600);
}


/// The text of a negative number of seconds is that of the positive number
/// after a `-`, except for what is less than a whole hour once cut to whole
/// minutes: there no sign is written.
pub proof fn lemma_hours_sign(seconds: int)
    requires
        seconds > 0,
    ensures
        (seconds / 60) % 60 == 0 && seconds < 3600 ==> hours_text(-seconds) == hours_text(seconds),
        !((seconds / 60) % 60 == 0 && seconds < 3600) ==> hours_text(-seconds) == seq!['-']
            + hours_text(seconds),
{
    if (seconds / 60) % 60 == 0 {
        lemma_div_denominator(seconds, 60, 60);
        assert((seconds / 60) / 60 > 0 <==> seconds >= 3600);
    }
    assert(seq!['-'] + hours_text(seconds) =~= hours_text(-seconds) || ((seconds / 60) % 60 == 0
        && seconds < 3600));
}

} // verus!

//! Percentages, rounded as double-precision numbers are.

use vstd::arithmetic::power2::{
    lemma2_to64, lemma2_to64_rest, lemma_pow2_adds, lemma_pow2_pos, lemma_pow2_strictly_increases,
    lemma_pow2_unfold, pow2,
};
use vstd::prelude::*;

use crate::output::{doubled, nearest_double, round_even, rounded, tenths_text};
use crate::text;

verus! {

/// The largest power of two with 53 bits.
pub const LOW: u128 = 0x10_0000_0000_0000;

/// The next one.
pub const HIGH: u128 = 0x20_0000_0000_0000;

/// A number as `mantissa / 2^scale`; the scale may be negative.
pub struct Number {
    pub mantissa: nat,
    pub scale: int,
}

/// The numerator is doubled until the quotient has 53 bits before the point,
/// which are then rounded.
pub open spec fn scaled_up(a: nat, b: nat, scale: int) -> Number
    decreases
            (if a < b * LOW {
                b * LOW - a
            } else {
                0
            }),
{
    if a == 0 || a >= b * LOW {
        Number { mantissa: round_even(a, b), scale }
    } else {
        scaled_up(2 * a, b, scale + 1)
    }
}

/// The denominator is doubled until the quotient has no more than that.
pub open spec fn scaled_down(a: nat, b: nat, scale: int) -> Number
    decreases
            (if a >= b * HIGH {
                a + 1 - b * HIGH
            } else {
                0
            }),
{
    if b == 0 || a < b * HIGH {
        Number { mantissa: round_even(a, b), scale }
    } else {
        scaled_down(a, 2 * b, scale - 1)
    }
}

/// The double-precision number nearest to `a / b`.
pub open spec fn quotient(a: nat, b: nat) -> Number {
    if a == 0 {
        Number { mantissa: 0, scale: 0 }
    } else if a < b * LOW {
        scaled_up(a, b, 0)
    } else {
        scaled_down(a, b, 0)
    }
}

/// `n` times a number, rounded to a whole one, halves to the even one.
pub open spec fn rounded_times(x: Number, n: nat) -> nat {
    if x.scale >= 0 {
        round_even(x.mantissa * n, pow2(x.scale as nat))
    } else {
        x.mantissa * n * pow2((-x.scale) as nat)
    }
}

/// A number rounded to a whole one, halves up.
pub open spec fn rounded_up(x: Number) -> nat {
    if x.scale >= 0 {
        (2 * x.mantissa + pow2(x.scale as nat)) / (2 * pow2(x.scale as nat))
    } else {
        x.mantissa * pow2((-x.scale) as nat)
    }
}

/// `part` as a percentage of `whole`; nothing is a percentage of nothing.
pub open spec fn percentage(part: nat, whole: nat) -> Number {
    if whole == 0 {
        Number { mantissa: 0, scale: 0 }
    } else {
        quotient(nearest_double(nearest_double(part) * 100), nearest_double(whole))
    }
}

/// A percentage with one decimal place, without its sign.
pub open spec fn percent_digits(part: nat, whole: nat) -> Seq<char> {
    tenths_text(rounded_times(percentage(part, whole), 10))
}

/// A percentage with one decimal place.
pub open spec fn percent_text(part: nat, whole: nat) -> Seq<char> {
    percent_digits(part, whole) + "%"@
}

/// How many twentieths a percentage comes to.
pub open spec fn twentieths(part: nat, whole: nat) -> nat {
    let p = percentage(part, whole);
    let q = quotient(p.mantissa, 5);
    rounded_up(Number { mantissa: q.mantissa, scale: q.scale + p.scale })
}

/// A number as it is computed with.
struct Scaled {
    mantissa: u128,
    scale: i32,
}

impl View for Scaled {
    type V = Number;

    closed spec fn view(&self) -> Number {
        Number { mantissa: self.mantissa as nat, scale: self.scale as int }
    }
}

fn power(n: u32) -> (r: u128)
    requires
        n < 127,
    ensures
        r == pow2(n as nat),
        1 <= r <= 0x4000_0000_0000_0000_0000_0000_0000_0000,
        n < 126 ==> r < 0x4000_0000_0000_0000_0000_0000_0000_0000,
{
    let mut r: u128 = 1;
    let mut i: u32 = 0;
    proof {
        lemma2_to64();
        lemma_pow2_at_126();
    }
    while i < n
        invariant
            i <= n < 127,
            r == pow2(i as nat),
            pow2(126) == 0x4000_0000_0000_0000_0000_0000_0000_0000,
        decreases n - i,
    {
        proof {
            lemma_pow2_unfold((i + 1) as nat);
            lemma_pow2_strictly_increases(i as nat, 126);
        }
        r = r * 2;
        i += 1;
    }
    proof {
        lemma_pow2_pos(n as nat);
        if n < 126 {
            lemma_pow2_strictly_increases(n as nat, 126);
        }
    }
    r
}

proof fn lemma_pow2_at_126()
    ensures
        pow2(126) == 0x4000_0000_0000_0000_0000_0000_0000_0000,
        pow2(118) == 0x40_0000_0000_0000_0000_0000_0000_0000,
        pow2(21) == 0x20_0000,
{
    lemma2_to64();
    lemma2_to64_rest();
    lemma_pow2_adds(63, 63);
    lemma_pow2_adds(63, 55);
    assert(pow2(63) * pow2(63) == 0x4000_0000_0000_0000_0000_0000_0000_0000) by (nonlinear_arith)
        requires
            pow2(63) == 0x8000_0000_0000_0000,
    ;
    assert(pow2(63) * pow2(55) == 0x40_0000_0000_0000_0000_0000_0000_0000) by (nonlinear_arith)
        requires
            pow2(63) == 0x8000_0000_0000_0000,
            pow2(55) == 0x80_0000_0000_0000,
    ;
}

/// The bounds keep every step within 128 bits.
fn divide(a: u128, b: u128) -> (r: Scaled)
    requires
        0 < b <= 0x2_0000_0000_0000_0000,
        a < 0x400_0000_0000_0000_0000,
    ensures
        r@ == quotient(a as nat, b as nat),
        r.mantissa <= HIGH,
        -21 <= r.scale <= 118,
{
    if a == 0 {
        return Scaled { mantissa: 0, scale: 0 };
    }
    let mut top: u128 = a;
    let mut bottom: u128 = b;
    let mut scale: i32 = 0;
    proof {
        lemma2_to64();
        lemma_pow2_at_126();
        assert(a * pow2(0) == a && b * pow2(0) == b) by (nonlinear_arith)
            requires
                pow2(0) == 1,
        ;
    }
    if a < b * LOW {
        while top < b * LOW
            invariant
                0 < b <= 0x2_0000_0000_0000_0000,
                0 < a,
                0 <= scale <= 118,
                top == a * pow2(scale as nat),
                0 < top < 2 * (b * LOW),
                scaled_up(a as nat, b as nat, 0) == scaled_up(
                    top as nat,
                    b as nat,
                    scale as int,
                ),
                pow2(118) == 0x40_0000_0000_0000_0000_0000_0000_0000,
            decreases
                    (if top < b * LOW {
                        b * LOW - top
                    } else {
                        0
                    }),
        {
            proof {
                lemma_pow2_unfold((scale + 1) as nat);
                assert(2 * top == a * pow2((scale + 1) as nat)) by (nonlinear_arith)
                    requires
                        top == a * pow2(scale as nat),
                        pow2((scale + 1) as nat) == 2 * pow2(scale as nat),
                ;
                assert(pow2(scale as nat) <= top) by (nonlinear_arith)
                    requires
                        top == a * pow2(scale as nat),
                        0 < a,
                ;
                if scale == 118 {
                    assert(false);
                }
            }
            top = top * 2;
            scale += 1;
        }
    } else {
        while top >= bottom * HIGH
            invariant
                top == a,
                0 < b,
                0 < bottom <= 0x2_0000_0000_0000_0000,
                top < 0x400_0000_0000_0000_0000,
                -21 <= scale <= 0,
                bottom == b * pow2((-scale) as nat),
                bottom * LOW <= top,
                scaled_down(a as nat, b as nat, 0) == scaled_down(
                    top as nat,
                    bottom as nat,
                    scale as int,
                ),
                pow2(21) == 0x20_0000,
            decreases
                    (if top >= bottom * HIGH {
                        top + 1 - bottom * HIGH
                    } else {
                        0
                    }),
        {
            proof {
                lemma_pow2_unfold((1 - scale) as nat);
                assert(2 * bottom == b * pow2((1 - scale) as nat)) by (nonlinear_arith)
                    requires
                        bottom == b * pow2((-scale) as nat),
                        pow2((1 - scale) as nat) == 2 * pow2((-scale) as nat),
                ;
                assert(pow2((-scale) as nat) <= bottom) by (nonlinear_arith)
                    requires
                        bottom == b * pow2((-scale) as nat),
                        0 < b,
                ;
                if scale == -21 {
                    assert(false);
                }
            }
            bottom = bottom * 2;
            scale -= 1;
        }
    }
    assert(top as nat / bottom as nat <= HIGH - 1) by (nonlinear_arith)
        requires
            top < bottom * HIGH,
            0 < bottom,
    ;
    Scaled { mantissa: rounded(top, bottom), scale }
}

fn percentage_of(part: u64, whole: u64) -> (r: Scaled)
    ensures
        r@ == percentage(part as nat, whole as nat),
        r.mantissa <= HIGH,
        -21 <= r.scale <= 118,
{
    if whole == 0 {
        return Scaled { mantissa: 0, scale: 0 };
    }
    let p: u128 = doubled(part as u128);
    let hundred: u128 = doubled(p * 100);
    let w: u128 = doubled(whole as u128);
    divide(hundred, w)
}

fn times(p: &Scaled, n: u128) -> (r: u128)
    requires
        p.mantissa <= HIGH,
        -21 <= p.scale <= 118,
        n <= 10,
    ensures
        r == rounded_times(p@, n as nat),
{
    assert(p.mantissa * n <= 0x140_0000_0000_0000) by (nonlinear_arith)
        requires
            p.mantissa <= 0x20_0000_0000_0000,
            n <= 10,
    ;
    let top: u128 = p.mantissa * n;
    if p.scale >= 0 {
        let d: u128 = power(p.scale as u32);
        rounded(top, d)
    } else {
        let d: u128 = power((-p.scale) as u32);
        proof {
            lemma2_to64();
            lemma_pow2_at_126();
            if -p.scale < 21 {
                lemma_pow2_strictly_increases((-p.scale) as nat, 21);
            }
            assert(top * d <= 0x140_0000_0000_0000 * 0x20_0000) by (nonlinear_arith)
                requires
                    top <= 0x140_0000_0000_0000,
                    d <= 0x20_0000,
            ;
        }
        top * d
    }
}

/// `part` as a whole percentage of `whole`.
pub fn whole_percent(part: u64, whole: u64) -> (r: String)
    ensures
        r@ == text::decimal(rounded_times(percentage(part as nat, whole as nat), 1)),
{
    let p = percentage_of(part, whole);
    wide_text(times(&p, 1))
}

pub fn percent_number(part: u64, whole: u64) -> (r: String)
    ensures
        r@ == percent_digits(part as nat, whole as nat),
{
    let p = percentage_of(part, whole);
    let tenths: u128 = times(&p, 10);
    let whole_part: u128 = tenths / 10;
    let rest: u64 = (tenths % 10) as u64;
    let mut out = wide_text(whole_part);
    let b = text::decimal_text(rest);
    out.append(".");
    out.append(b.as_str());
    out
}

pub fn percent_string(part: u64, whole: u64) -> (r: String)
    ensures
        r@ == percent_text(part as nat, whole as nat),
{
    let mut out = percent_number(part, whole);
    out.append("%");
    out
}

/// A number in decimal, also where it takes more than 64 bits.
fn wide_text(n: u128) -> (r: String)
    ensures
        r@ == text::decimal(n as nat),
    decreases n,
{
    if n <= 0xffff_ffff_ffff_ffff {
        return text::decimal_text(n as u64);
    }
    let mut out = wide_text(n / 10);
    let last = text::decimal_text((n % 10) as u64);
    out.append(last.as_str());
    assert(out@ =~= text::decimal(n as nat));
    out
}

/// How many twentieths `part` is of `whole`.
pub fn twentieths_of(part: u64, whole: u64) -> (r: u128)
    ensures
        r == twentieths(part as nat, whole as nat),
{
    let p = percentage_of(part, whole);
    let q = divide(p.mantissa, 5);
    let scale: i32 = q.scale + p.scale;
    if scale >= 0 {
        if scale >= 126 {
            proof {
                lemma2_to64();
                lemma_pow2_at_126();
                if scale > 126 {
                    lemma_pow2_strictly_increases(126, scale as nat);
                }
                let d = pow2(scale as nat);
                let m = q.mantissa as nat;
                assert((2 * m + d) / (2 * d) == 0) by (nonlinear_arith)
                    requires
                        2 * m < d,
                ;
            }
            return 0;
        }
        let d: u128 = power(scale as u32);
        (2 * q.mantissa + d) / (2 * d)
    } else {
        let d: u128 = power((-scale) as u32);
        proof {
            lemma2_to64();
            lemma2_to64_rest();
            lemma_pow2_strictly_increases((-scale) as nat, 43);
            assert(q.mantissa * d <= 0x20_0000_0000_0000 * 0x800_0000_0000) by (nonlinear_arith)
                requires
                    q.mantissa <= 0x20_0000_0000_0000,
                    d <= 0x800_0000_0000,
            ;
        }
        q.mantissa * d
    }
}

// ------------------------------------------------------------------------ laws


proof fn lemma_scaled_up(a: nat, b: nat, scale: int, from: nat)
    requires
        b > 0,
        scale >= 0,
        a == from * pow2(scale as nat),
    ensures
        ({
            let x = scaled_up(a, b, scale);
            &&& x.scale >= scale
            &&& x.mantissa == round_even(from * pow2(x.scale as nat), b)
            &&& a > 0 ==> from * pow2(x.scale as nat) >= b * LOW
        }),
    decreases
            (if a < b * LOW {
                b * LOW - a
            } else {
                0
            }),
{
    if !(a == 0 || a >= b * LOW) {
        lemma_pow2_unfold((scale + 1) as nat);
        assert(2 * a == from * pow2((scale + 1) as nat)) by (nonlinear_arith)
            requires
                a == from * pow2(scale as nat),
                pow2((scale + 1) as nat) == 2 * pow2(scale as nat),
        ;
        lemma_scaled_up(2 * a, b, scale + 1, from);
    }
}

proof fn lemma_scaled_down(a: nat, b: nat, scale: int, by: nat)
    requires
        by > 0,
        scale <= 0,
        b == by * pow2((-scale) as nat),
        b > 0,
        a >= b * LOW,
    ensures
        ({
            let x = scaled_down(a, b, scale);
            &&& x.scale <= scale
            &&& x.mantissa == round_even(a, by * pow2((-x.scale) as nat))
            &&& by * pow2((-x.scale) as nat) > 0
            &&& a >= by * pow2((-x.scale) as nat) * LOW
        }),
    decreases
            (if a >= b * HIGH {
                a + 1 - b * HIGH
            } else {
                0
            }),
{
    if !(b == 0 || a < b * HIGH) {
        lemma_pow2_unfold((1 - scale) as nat);
        assert(2 * b == by * pow2((1 - scale) as nat)) by (nonlinear_arith)
            requires
                b == by * pow2((-scale) as nat),
                pow2((1 - scale) as nat) == 2 * pow2((-scale) as nat),
        ;
        lemma_scaled_down(a, 2 * b, scale - 1, by);
    }
}

/// A quotient is the nearest there is with as many bits as a double-precision
/// number has: off by no more than half of its last bit.
pub proof fn law_quotients_are_the_nearest(a: nat, b: nat)
    requires
        b > 0,
    ensures
        ({
            let x = quotient(a, b);
            let m = x.mantissa;
            &&& a == 0 ==> m == 0
            &&& x.scale >= 0 ==> {
                let n = a * pow2(x.scale as nat);
                &&& 2 * n <= 2 * (b * m) + b
                &&& 2 * n + b >= 2 * (b * m)
                &&& a > 0 ==> n >= b * LOW
            }
            &&& x.scale < 0 ==> {
                let d = b * pow2((-x.scale) as nat);
                &&& 2 * a <= 2 * (d * m) + d
                &&& 2 * a + d >= 2 * (d * m)
                &&& a >= d * LOW
            }
        }),
{
    lemma2_to64();
    assert(a * pow2(0) == a && b * pow2(0) == b) by (nonlinear_arith)
        requires
            pow2(0) == 1,
    ;
    let x = quotient(a, b);
    if a == 0 {
        assert(0 * pow2(0) == 0) by (nonlinear_arith);
    } else if a < b * LOW {
        lemma_scaled_up(a, b, 0, a);
        crate::output::lemma_round_even(a * pow2(x.scale as nat), b);
    } else {
        lemma_scaled_down(a, b, 0, b);
        let d = b * pow2((-x.scale) as nat);
        crate::output::lemma_round_even(a, d);
        if x.scale == 0 {
            assert(d == b);
        }
    }
}

/// A percentage is a hundred times the part, over the whole.
pub proof fn law_percentages_are_hundredths(part: nat, whole: nat)
    requires
        part * 100 < 0x20_0000_0000_0000,
        whole < 0x20_0000_0000_0000,
    ensures
        whole > 0 ==> percentage(part, whole) == quotient(100 * part, whole),
        whole == 0 ==> percentage(part, whole).mantissa == 0,
{
    lemma_small_is_itself(part);
    lemma_small_is_itself(part * 100);
    lemma_small_is_itself(whole);
}

proof fn lemma_small_is_itself(n: nat)
    requires
        n < 0x20_0000_0000_0000,
    ensures
        nearest_double(n) == n,
{
    assert(crate::output::grain(n) == 1);
    assert(round_even(n, 1) == n);
}

} // verus!

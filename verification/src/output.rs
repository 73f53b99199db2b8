//! Output mode and the wording shared by every report.

use vstd::prelude::*;

use crate::text;
use crate::text::{concat3, decimal_text};

verus! {

#[derive(Debug, Clone, Copy, PartialEq, Eq, Structural)]
pub enum Mode {
    Human,
    Json,
}

/// JSON is used when asked for by flag or environment, or when stdout is not
/// a terminal.
pub fn decide(flag_json: bool, env_json: bool, stdout_is_tty: bool) -> (r: Mode)
    ensures
        r == Mode::Json <==> flag_json || env_json || !stdout_is_tty,
{
    if flag_json || env_json || !stdout_is_tty {
        Mode::Json
    } else {
        Mode::Human
    }
}

/// `n / d` rounded to the nearest whole number, halves to the even one.
pub open spec fn round_even(n: nat, d: nat) -> nat {
    let q = n / d;
    let r = n % d;
    if 2 * r > d || (2 * r == d && q % 2 == 1) {
        q + 1
    } else {
        q
    }
}

/// The distance between neighbouring double-precision numbers at `n`: such a
/// number holds 53 significant bits.
pub open spec fn grain(n: nat) -> nat
    decreases n,
{
    if n < 0x20_0000_0000_0000 {
        1
    } else {
        2 * grain(n / 2)
    }
}

/// The double-precision number nearest to `n`.
pub open spec fn nearest_double(n: nat) -> nat {
    round_even(n, grain(n)) * grain(n)
}

/// A whole number of tenths with one decimal place.
pub open spec fn tenths_text(tenths: nat) -> Seq<char> {
    text::decimal(tenths / 10) + "."@ + text::decimal(tenths % 10)
}

/// A size for people: whole bytes below one KiB, else one decimal place in
/// the largest unit up to GiB that leaves at least one of it.
pub open spec fn human(bytes: nat) -> Seq<char> {
    if bytes < 1024 {
        text::decimal(bytes) + " B"@
    } else {
        let v = nearest_double(bytes);
        if v < 0x10_0000 {
            tenths_text(round_even(v * 10, 1024)) + " KiB"@
        } else if v < 0x4000_0000 {
            tenths_text(round_even(v * 10, 0x10_0000)) + " MiB"@
        } else {
            tenths_text(round_even(v * 10, 0x4000_0000)) + " GiB"@
        }
    }
}

fn grain_of(n: u128) -> (r: u128)
    requires
        n < 0x1_0000_0000_0000_0000_0000,
    ensures
        r == grain(n as nat),
        1 <= r,
        n > 0 ==> r <= n,
    decreases n,
{
    if n < 0x20_0000_0000_0000 {
        1
    } else {
        2 * grain_of(n / 2)
    }
}

pub fn rounded(n: u128, d: u128) -> (r: u128)
    requires
        0 < d,
        n < 0x4000_0000_0000_0000_0000_0000_0000_0000,
        d < 0x4000_0000_0000_0000_0000_0000_0000_0000,
    ensures
        r == round_even(n as nat, d as nat),
        r <= n / d + 1,
{
    let q: u128 = n / d;
    let rest: u128 = n % d;
    assert(q <= n) by (nonlinear_arith)
        requires
            q == n / d,
            0 < d,
    ;
    if 2 * rest > d || (2 * rest == d && q % 2 == 1) {
        q + 1
    } else {
        q
    }
}

pub fn doubled(n: u128) -> (r: u128)
    requires
        n < 0x1_0000_0000_0000_0000_0000,
    ensures
        r == nearest_double(n as nat),
        r <= 2 * n,
        n > 0 ==> r > 0,
{
    let g: u128 = grain_of(n);
    let q: u128 = rounded(n, g);
    assert(n > 0 ==> n / g >= 1) by (nonlinear_arith)
        requires
            n > 0 ==> g <= n,
            1 <= g,
    ;
    assert(q * g <= 2 * n) by (nonlinear_arith)
        requires
            q <= n / g + 1,
            1 <= g,
            n > 0 ==> g <= n,
            n == 0 ==> q == 0,
    ;
    assert(n > 0 ==> q * g > 0) by (nonlinear_arith)
        requires
            n > 0 ==> q >= 1,
            1 <= g,
    ;
    q * g
}

fn tenths_string(tenths: u128, unit: &str) -> (r: String)
    requires
        tenths < 0x1_0000_0000_0000_0000,
    ensures
        r@ == tenths_text(tenths as nat) + unit@,
{
    let whole: u64 = (tenths / 10) as u64;
    let part: u64 = (tenths % 10) as u64;
    let a = decimal_text(whole);
    let b = decimal_text(part);
    let mut out = concat3(a.as_str(), ".", b.as_str());
    out.append(unit);
    out
}

pub fn humanize_bytes(bytes: u64) -> (r: String)
    ensures
        r@ == human(bytes as nat),
{
    if bytes < 1024 {
        let mut out = decimal_text(bytes);
        out.append(" B");
        return out;
    }
    let v: u128 = doubled(bytes as u128);
    if v < 0x10_0000 {
        tenths_string(rounded(v * 10, 1024), " KiB")
    } else if v < 0x4000_0000 {
        tenths_string(rounded(v * 10, 0x10_0000), " MiB")
    } else {
        tenths_string(rounded(v * 10, 0x4000_0000), " GiB")
    }
}

/// A count with its noun, which takes an `s` unless there is exactly one.
pub open spec fn counted(n: nat, noun: Seq<char>) -> Seq<char> {
    if n == 1 {
        "1 "@ + noun
    } else {
        text::decimal(n) + " "@ + noun + "s"@
    }
}

pub fn count_label(n: usize, noun: &str) -> (r: String)
    ensures
        r@ == counted(n as nat, noun@),
{
    if n == 1 {
        text::concat2("1 ", noun)
    } else {
        let digits = decimal_text(n as u64);
        text::concat4(digits.as_str(), " ", noun, "s")
    }
}

// ------------------------------------------------------------------------ laws


/// A size is shown in the largest unit up to GiB that there is one of, within
/// half a tenth of that unit, as long as a double-precision number holds it.
pub proof fn law_sizes_are_shown_to_a_tenth(bytes: nat) -> (r: (nat, nat))
    requires
        bytes < 0x20_0000_0000_0000,
    ensures
        r.1 < 10,
        bytes < 1024 ==> human(bytes) == text::decimal(bytes) + " B"@,
        1024 <= bytes < 1024 * 1024 ==> {
            &&& human(bytes) == text::decimal(r.0) + "."@ + text::decimal(r.1) + " KiB"@
            &&& 20 * bytes <= 2 * 1024 * (10 * r.0 + r.1) + 1024
            &&& 20 * bytes + 1024 >= 2 * 1024 * (10 * r.0 + r.1)
        },
        1024 * 1024 <= bytes < 1024 * 1024 * 1024 ==> {
            &&& human(bytes) == text::decimal(r.0) + "."@ + text::decimal(r.1) + " MiB"@
            &&& 20 * bytes <= 2 * 0x10_0000 * (10 * r.0 + r.1) + 0x10_0000
            &&& 20 * bytes + 0x10_0000 >= 2 * 0x10_0000 * (10 * r.0 + r.1)
        },
        bytes >= 1024 * 1024 * 1024 ==> {
            &&& human(bytes) == text::decimal(r.0) + "."@ + text::decimal(r.1) + " GiB"@
            &&& 20 * bytes <= 0x4000_0000 * (2 * (10 * r.0 + r.1) + 1)
            &&& 20 * bytes >= 0x4000_0000 * (2 * (10 * r.0 + r.1) - 1)
        },
{
    assert(grain(bytes) == 1);
    assert(round_even(bytes, 1) == bytes);
    assert(nearest_double(bytes) == bytes);
    let unit: nat = if bytes < 1024 * 1024 {
        1024
    } else if bytes < 1024 * 1024 * 1024 {
        1024 * 1024
    } else {
        1024 * 1024 * 1024
    };
    let tenths = round_even(bytes * 10, unit);
    lemma_round_even(bytes * 10, 1024);
    lemma_round_even(bytes * 10, 0x10_0000);
    lemma_round_even(bytes * 10, 0x4000_0000);
    assert(10 * (tenths / 10) + tenths % 10 == tenths);
    if 1024 <= bytes < 1024 * 1024 {
        assert(unit == 1024);
        assert(tenths == round_even(bytes * 10, 1024));
        assert(human(bytes) == tenths_text(tenths) + " KiB"@);
    } else if 1024 * 1024 <= bytes < 1024 * 1024 * 1024 {
        assert(unit == 0x10_0000);
        assert(tenths == round_even(bytes * 10, 0x10_0000));
        assert(human(bytes) == tenths_text(tenths) + " MiB"@);
    } else if bytes >= 0x4000_0000 {
        assert(unit == 0x4000_0000);
        assert(tenths == round_even(bytes * 10, 0x4000_0000));
        assert(human(bytes) == tenths_text(tenths) + " GiB"@);
        assert(20 * bytes <= 2 * (0x4000_0000 * tenths) + 0x4000_0000);
        assert(20 * bytes + 0x4000_0000 >= 2 * (0x4000_0000 * tenths));
    }
    (tenths / 10, tenths % 10)
}

pub proof fn lemma_round_even(n: nat, d: nat)
    requires
        d > 0,
    ensures
        2 * n <= 2 * (d * round_even(n, d)) + d,
        2 * n + d >= 2 * (d * round_even(n, d)),
{
    let q = n / d;
    let r = n % d;
    vstd::arithmetic::div_mod::lemma_fundamental_div_mod(n as int, d as int);
    assert(d * (q + 1) == d * q + d) by (nonlinear_arith);
}

/// A count of one has the bare noun, and any other has it with an `s`.
pub proof fn law_nouns_agree_with_their_count(n: nat, noun: Seq<char>)
    ensures
        n == 1 ==> counted(n, noun) == "1 "@ + noun,
        n != 1 ==> counted(n, noun) == text::decimal(n) + " "@ + noun + "s"@,
{
}

/// Above 53 bits, a size is a whole number of grains that 53 bits hold.
pub proof fn law_grains_leave_53_bits(n: nat)
    ensures
        n < 0x20_0000_0000_0000 ==> grain(n) == 1,
        n >= 0x20_0000_0000_0000 ==> 0x10_0000_0000_0000 * grain(n) <= n < 0x20_0000_0000_0000
            * grain(n),
    decreases n,
{
    if n >= 0x20_0000_0000_0000 {
        law_grains_leave_53_bits(n / 2);
        assert(grain(n) == 2 * grain(n / 2));
    }
}

} // verus!

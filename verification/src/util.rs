//! Sizes as other programs print them.

use vstd::prelude::*;

use crate::text;
use crate::text::chars_of;

verus! {

broadcast use vstd::seq::group_seq_axioms;

pub open spec fn number_char(c: char) -> bool {
    text::digit(c) || c == '.'
}

/// Where the digits and points that `s` starts with end.
pub open spec fn amount_end(s: Seq<char>, from: int) -> int
    decreases s.len() - from,
{
    if from < 0 || from >= s.len() || !number_char(s[from]) {
        from
    } else {
        amount_end(s, from + 1)
    }
}

/// The bytes in one unit; every prefix stands for a power of 1024.
pub open spec fn unit_bytes(unit: Seq<char>) -> Option<nat> {
    if unit == ""@ || unit == "B"@ {
        Some(1)
    } else if unit == "K"@ || unit == "kB"@ || unit == "KB"@ || unit == "KiB"@ {
        Some(0x400)
    } else if unit == "M"@ || unit == "MB"@ || unit == "MiB"@ {
        Some(0x10_0000)
    } else if unit == "G"@ || unit == "GB"@ || unit == "GiB"@ {
        Some(0x4000_0000)
    } else if unit == "T"@ || unit == "TB"@ || unit == "TiB"@ {
        Some(0x100_0000_0000)
    } else {
        None
    }
}

pub open spec fn ten_to(n: nat) -> nat
    decreases n,
{
    if n == 0 {
        1
    } else {
        10 * ten_to((n - 1) as nat)
    }
}

/// The whole and the decimal digits of an amount.
pub open spec fn amount_parts(amount: Seq<char>) -> (Seq<char>, Seq<char>) {
    match text::halves(amount, "."@) {
        Some(parts) => parts,
        None => (amount, Seq::empty()),
    }
}

/// The size that `s` spells: an amount with up to 18 decimal places, then a
/// unit; rounded down to whole bytes.
pub open spec fn human_size(s: Seq<char>) -> Option<nat> {
    let end = amount_end(s, 0);
    let (whole, part) = amount_parts(s.take(end));
    match unit_bytes(text::trim(s.skip(end))) {
        Some(unit) => match text::number(whole + part, u64::MAX as nat) {
            Some(n) => if part.len() <= 18 && (n * unit) / ten_to(part.len())
                <= u64::MAX {
                Some(((n * unit) / ten_to(part.len())) as nat)
            } else {
                None
            },
            None => None,
        },
        None => None,
    }
}

fn unit_of(unit: &str) -> (r: Option<u64>)
    ensures
        match r {
            Some(n) => unit_bytes(unit@) == Some(n as nat) && n <= 0x100_0000_0000,
            None => unit_bytes(unit@) is None,
        },
{
    if text::same(unit, "") || text::same(unit, "B") {
        Some(1)
    } else if text::same(unit, "K") || text::same(unit, "kB") || text::same(unit, "KB")
        || text::same(unit, "KiB") {
        Some(0x400)
    } else if text::same(unit, "M") || text::same(unit, "MB") || text::same(unit, "MiB") {
        Some(0x10_0000)
    } else if text::same(unit, "G") || text::same(unit, "GB") || text::same(unit, "GiB") {
        Some(0x4000_0000)
    } else if text::same(unit, "T") || text::same(unit, "TB") || text::same(unit, "TiB") {
        Some(0x100_0000_0000)
    } else {
        None
    }
}

fn ten_power(n: usize) -> (r: u128)
    requires
        n <= 18,
    ensures
        r == ten_to(n as nat),
        1 <= r <= 1_000_000_000_000_000_000,
{
    proof {
        reveal_with_fuel(ten_to, 20);
    }
    let mut out: u128 = 1;
    let mut i: usize = 0;
    while i < n
        invariant
            i <= n <= 18,
            out == ten_to(i as nat),
            1 <= out,
            ten_to(0) == 1,
            ten_to(18) == 1_000_000_000_000_000_000,
        decreases n - i,
    {
        proof {
            lemma_ten_to_grows((i + 1) as nat, 18);
            assert(ten_to((i + 1) as nat) == 10 * ten_to(i as nat));
        }
        out = out * 10;
        i += 1;
    }
    proof {
        lemma_ten_to_grows(n as nat, 18);
    }
    out
}

proof fn lemma_ten_to_grows(a: nat, b: nat)
    requires
        a <= b,
    ensures
        1 <= ten_to(a) <= ten_to(b),
    decreases b,
{
    if a < b {
        lemma_ten_to_grows(a, (b - 1) as nat);
    } else if b > 0 {
        lemma_ten_to_grows((a - 1) as nat, (b - 1) as nat);
    }
}

pub open spec fn opt_size(o: Option<u64>) -> Option<nat> {
    match o {
        Some(n) => Some(n as nat),
        None => None,
    }
}

/// Reads a size such as `1024.00 KiB` or `128MB`.
pub fn parse_human_size(s: &str) -> (r: Option<u64>)
    ensures
        opt_size(r) == human_size(s@),
{
    let v = chars_of(s);
    let mut end: usize = 0;
    while end < v.len() && (text::is_digit(v[end]) || v[end] == '.')
        invariant
            end <= v.len(),
            amount_end(v@, 0) == amount_end(v@, end as int),
        decreases v.len() - end,
    {
        end += 1;
    }
    let amount = text::piece(&v, 0, end);
    let unit = text::piece(&v, end, v.len());
    assert(amount@ =~= s@.take(end as int));
    assert(unit@ =~= s@.skip(end as int));
    let (whole, part) = match text::cut_at(amount.as_str(), ".") {
        Some(parts) => parts,
        None => (amount, String::new()),
    };
    assert((whole@, part@) == amount_parts(s@.take(end as int)));
    let places: usize = part.as_str().unicode_len();
    let unit = text::trimmed(unit.as_str());
    let digits = text::concat2(whole.as_str(), part.as_str());
    match unit_of(unit.as_str()) {
        Some(bytes) => match text::parse_number(digits.as_str(), u64::MAX) {
            Some(n) => {
                if places > 18 {
                    return None;
                }
                assert(n * bytes <= 0xffff_ffff_ffff_ffff * 0x100_0000_0000) by (nonlinear_arith)
                    requires
                        0 <= n <= 0xffff_ffff_ffff_ffff,
                        0 <= bytes <= 0x100_0000_0000,
                ;
                let total: u128 = n as u128 * bytes as u128 / ten_power(places);
                if total <= u64::MAX as u128 {
                    Some(total as u64)
                } else {
                    None
                }
            },
            None => None,
        },
        None => None,
    }
}

// ------------------------------------------------------------------------ laws


/// Whether `unit` is one of those that stand for so many bytes.
pub open spec fn stands_for_bytes(unit: Seq<char>, bytes: nat) -> bool {
    ||| bytes == 1 && unit == "B"@
    ||| bytes == 1024 && (unit == "K"@ || unit == "kB"@ || unit == "KB"@ || unit == "KiB"@)
    ||| bytes == 1024 * 1024 && (unit == "M"@ || unit == "MB"@ || unit == "MiB"@)
    ||| bytes == 1024 * 1024 * 1024 && (unit == "G"@ || unit == "GB"@ || unit == "GiB"@)
    ||| bytes == 1024 * 1024 * 1024 * 1024 && (unit == "T"@ || unit == "TB"@ || unit == "TiB"@)
}

proof fn lemma_amount_end(s: Seq<char>, from: int, end: int)
    requires
        0 <= from <= end <= s.len(),
        forall|i: int| from <= i < end ==> number_char(#[trigger] s[i]),
        end < s.len() ==> !number_char(s[end]),
    ensures
        amount_end(s, from) == end,
    decreases end - from,
{
    if from < end {
        lemma_amount_end(s, from + 1, end);
    }
}

proof fn lemma_unit(unit: Seq<char>, bytes: nat)
    requires
        stands_for_bytes(unit, bytes),
    ensures
        unit_bytes(unit) == Some(bytes),
        unit.len() > 0,
        text::bare(unit),
        !number_char(unit[0]),
{
    reveal_strlit("");
    reveal_strlit("B");
    reveal_strlit("K");
    reveal_strlit("kB");
    reveal_strlit("KB");
    reveal_strlit("KiB");
    reveal_strlit("M");
    reveal_strlit("MB");
    reveal_strlit("MiB");
    reveal_strlit("G");
    reveal_strlit("GB");
    reveal_strlit("GiB");
    reveal_strlit("T");
    reveal_strlit("TB");
    reveal_strlit("TiB");
    assert(unit[0] == 'B' || unit[0] == 'K' || unit[0] == 'k' || unit[0] == 'M' || unit[0] == 'G'
        || unit[0] == 'T');
    assert(unit.last() == 'B' || unit.last() == 'K' || unit.last() == 'M' || unit.last() == 'G'
        || unit.last() == 'T');
}

proof fn lemma_size_split(amount: Seq<char>, gap: Seq<char>, unit: Seq<char>, bytes: nat)
    requires
        forall|i: int| 0 <= i < amount.len() ==> number_char(#[trigger] amount[i]),
        gap == ""@ || gap == " "@,
        stands_for_bytes(unit, bytes),
    ensures
        ({
            let s = amount + gap + unit;
            let end = amount_end(s, 0);
            &&& s.take(end) == amount
            &&& unit_bytes(text::trim(s.skip(end))) == Some(bytes)
        }),
{
    reveal_strlit("");
    reveal_strlit(" ");
    lemma_unit(unit, bytes);
    let s = amount + gap + unit;
    let n = amount.len() as int;
    assert forall|i: int| 0 <= i < n implies number_char(#[trigger] s[i]) by {
        assert(s[i] == amount[i]);
    }
    assert(gap.len() == 0 ==> s[n] == unit[0]);
    assert(gap.len() == 1 ==> s[n] == ' ');
    lemma_amount_end(s, 0, n);
    assert(s.take(n) =~= amount);
    assert(s.skip(n) =~= gap + unit + Seq::<char>::empty());
    text::law_trim_takes_the_ends(gap, unit, Seq::empty());
}

/// A whole number of units is so many bytes, each prefix a power of 1024.
pub proof fn law_whole_sizes_are_read(n: nat, gap: Seq<char>, unit: Seq<char>, bytes: nat)
    requires
        gap == ""@ || gap == " "@,
        stands_for_bytes(unit, bytes),
        n <= u64::MAX,
        n * bytes <= u64::MAX,
    ensures
        human_size(text::decimal(n) + gap + unit) == Some(n * bytes),
{
    reveal_strlit(".");
    let amount = text::decimal(n);
    text::lemma_decimal(n);
    assert forall|i: int| 0 <= i < amount.len() implies number_char(#[trigger] amount[i]) by {
        assert(text::digit(amount[i]));
    }
    lemma_size_split(amount, gap, unit, bytes);
    assert("."@ =~= seq!['.']);
    if amount.contains('.') {
        let i = choose|i: int| 0 <= i < amount.len() && amount[i] == '.';
        assert(text::digit(amount[i]));
    }
    text::law_halves_need_a_separator(amount, '.');
    assert(amount + Seq::<char>::empty() =~= amount);
    text::lemma_number_of_decimal(n, u64::MAX as nat);
    let none = Seq::<char>::empty();
    assert(amount_parts(amount) == (amount, none));
    assert(ten_to(none.len()) == 1);
    let x = n * bytes;
    assert(x / 1nat == x);
    assert(text::number(amount + none, u64::MAX as nat) == Some(n));
}

/// A number with two decimals is read to the byte, rounded down.
pub proof fn law_decimals_are_read(
    n: nat,
    tenths: char,
    hundredths: char,
    gap: Seq<char>,
    unit: Seq<char>,
    bytes: nat,
)
    requires
        gap == ""@ || gap == " "@,
        stands_for_bytes(unit, bytes),
        text::digit(tenths),
        text::digit(hundredths),
        n * 100 + 99 <= u64::MAX,
        (n * 100 + 99) * bytes <= u64::MAX,
    ensures
        ({
            let all = n * 100 + (tenths as u32 - '0' as u32) * 10 + (hundredths as u32
                - '0' as u32);
            let size = human_size(
                text::decimal(n) + "."@ + seq![tenths, hundredths] + gap + unit,
            );
            &&& size is Some
            &&& size->0 * 100 <= all * bytes < (size->0 + 1) * 100
        }),
{
    reveal_strlit(".");
    reveal_with_fuel(ten_to, 3);
    let whole = text::decimal(n);
    let part = seq![tenths, hundredths];
    let amount = whole + "."@ + part;
    let all = (n * 100 + (tenths as u32 - '0' as u32) * 10 + (hundredths as u32
        - '0' as u32)) as nat;
    text::lemma_decimal(n);
    assert("."@ =~= seq!['.']);
    assert forall|i: int| 0 <= i < amount.len() implies number_char(#[trigger] amount[i]) by {
        if i < whole.len() {
            assert(text::digit(whole[i]));
        }
    }
    lemma_size_split(amount, gap, unit, bytes);
    if whole.contains('.') {
        let i = choose|i: int| 0 <= i < whole.len() && whole[i] == '.';
        assert(text::digit(whole[i]));
    }
    text::law_halves_at_the_first(whole, '.', part);
    let digits = whole + part;
    assert(digits.drop_last() =~= whole.push(tenths));
    assert(whole.push(tenths).drop_last() =~= whole);
    assert(digits.last() == hundredths);
    assert(whole.push(tenths).last() == tenths);
    let d = (tenths as u32 - '0' as u32) as nat;
    let e = (hundredths as u32 - '0' as u32) as nat;
    assert(text::value(whole) == n);
    assert(text::value(whole.push(tenths)) == n * 10 + d);
    assert(text::value(digits) == text::value(digits.drop_last()) * 10 + e);
    assert((n * 10 + d) * 10 + e == n * 100 + d * 10 + e);
    assert(text::value(digits) == all);
    assert forall|i: int| 0 <= i < digits.len() implies text::digit(#[trigger] digits[i]) by {
        if i < whole.len() {
            assert(text::digit(whole[i]));
        }
    }
    assert(text::digit(digits[0]));
    assert(text::number(digits, u64::MAX as nat) == Some(all));
    let x = all * bytes;
    assert(x <= (n * 100 + 99) * bytes) by (nonlinear_arith)
        requires
            all <= n * 100 + 99,
            x == all * bytes,
    ;
    assert(ten_to(2) == 100);
    assert(x / 100 <= u64::MAX);
}

} // verus!

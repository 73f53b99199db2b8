//! What the kernel counts, read from the text of its files below `/proc`.
//! A rate is the difference of two samples.

use vstd::prelude::*;

use crate::commands::status::{Core, Rate};
use crate::order;
use crate::ratio::{percent_digits, percent_number, twentieths, twentieths_of};
use crate::safety::deleter::capped;
use crate::text;

verus! {

broadcast use vstd::seq::group_seq_axioms;

/// A number that a counter can hold.
pub open spec fn count(s: Seq<char>) -> Option<nat> {
    text::number(s, u64::MAX as nat)
}

/// A count of things of `unit` bytes, in bytes.
pub open spec fn times(s: Seq<char>, unit: nat) -> Option<nat> {
    match count(s) {
        Some(n) if n * unit <= u64::MAX => Some(n * unit),
        _ => None,
    }
}

fn scaled(s: &str, unit: u64) -> (r: Option<u64>)
    ensures
        match r {
            Some(n) => times(s@, unit as nat) == Some(n as nat),
            None => times(s@, unit as nat) is None,
        },
{
    match text::parse_number(s, u64::MAX) {
        Some(n) => n.checked_mul(unit),
        None => None,
    }
}

// ---------------------------------------------------------------- processors

/// How long a processor has been at work, and how long it has been there.
#[derive(Debug, Clone, Copy, PartialEq, Eq, Structural)]
pub struct Ticks {
    pub busy: u64,
    pub total: u64,
}

/// The numbers among the first `n` words, behind the first.
pub open spec fn counts(words: Seq<Seq<char>>, n: int) -> Seq<nat>
    decreases n,
{
    if n <= 1 {
        Seq::empty()
    } else {
        match count(words[n - 1]) {
            Some(x) => counts(words, n - 1).push(x),
            None => counts(words, n - 1),
        }
    }
}

/// The sum of the numbers from `from` up to `to`; one that is missing counts
/// as nothing.
pub open spec fn sum(list: Seq<nat>, from: int, to: int) -> nat
    decreases to - from,
{
    if to <= from {
        0
    } else {
        sum(list, from, to - 1) + (if to <= list.len() {
            list[to - 1]
        } else {
            0
        })
    }
}

/// A line counts the time in eight states, of which the fourth and the fifth
/// are idle.
pub open spec fn ticks_of(line: Seq<char>) -> Ticks {
    let words = text::words(line);
    let list = counts(words, words.len() as int);
    Ticks {
        busy: capped((sum(list, 0, 3) + sum(list, 5, 8)) as int),
        total: capped(sum(list, 0, 8) as int),
    }
}

/// Those of the first `n` lines, all processors together and each.
pub open spec fn ticks(lines: Seq<Seq<char>>, n: int) -> Seq<Ticks>
    decreases n,
{
    if n <= 0 {
        Seq::empty()
    } else if text::starts_with(lines[n - 1], "cpu"@) {
        ticks(lines, n - 1).push(ticks_of(lines[n - 1]))
    } else {
        ticks(lines, n - 1)
    }
}

pub open spec fn naturals(v: Seq<u64>) -> Seq<nat> {
    v.map_values(|x: u64| x as nat)
}

fn counts_in(words: &Vec<String>) -> (r: Vec<u64>)
    ensures
        naturals(r@) == counts(text::texts(words@), words@.len() as int),
{
    let ghost all = text::texts(words@);
    let mut out: Vec<u64> = Vec::new();
    let mut i: usize = 1;
    assert(naturals(out@) =~= Seq::empty());
    while i < words.len()
        invariant
            1 <= i,
            i <= words.len() || i == 1,
            all == text::texts(words@),
            naturals(out@) == counts(all, i as int),
        decreases words.len() - i,
    {
        assert(all[i as int] == words@[i as int]@);
        let ghost had = out@;
        if let Some(n) = text::parse_number(words[i].as_str(), u64::MAX) {
            out.push(n);
            assert(naturals(out@) =~= naturals(had).push(n as nat));
        }
        i += 1;
    }
    out
}

proof fn lemma_sum_bounded(v: Seq<u64>, from: int, to: int)
    requires
        0 <= from <= to,
    ensures
        sum(naturals(v), from, to) <= (to - from) * u64::MAX,
    decreases to - from,
{
    if from < to {
        lemma_sum_bounded(v, from, to - 1);
        assert((to - from) * u64::MAX == (to - 1 - from) * u64::MAX + u64::MAX)
            by (nonlinear_arith);
        if to <= v.len() {
            assert(naturals(v)[to - 1] == v[to - 1]);
        }
    }
}

fn sum_in(v: &Vec<u64>, from: usize, to: usize) -> (r: u128)
    requires
        from <= to <= 8,
    ensures
        r == sum(naturals(v@), from as int, to as int),
        r <= 8 * u64::MAX,
{
    let mut out: u128 = 0;
    let mut i: usize = from;
    while i < to
        invariant
            from <= i <= to <= 8,
            out == sum(naturals(v@), from as int, i as int),
        decreases to - i,
    {
        proof {
            lemma_sum_bounded(v@, from as int, i as int);
            assert((i - from) * u64::MAX <= 8 * u64::MAX) by (nonlinear_arith)
                requires
                    i - from <= 8,
            ;
        }
        if i < v.len() {
            assert(naturals(v@)[i as int] == v@[i as int]);
            out = out + v[i] as u128;
        }
        i += 1;
    }
    proof {
        lemma_sum_bounded(v@, from as int, to as int);
        assert((to - from) * u64::MAX <= 8 * u64::MAX) by (nonlinear_arith)
            requires
                to - from <= 8,
        ;
    }
    out
}

fn cap(n: u128) -> (r: u64)
    ensures
        r == capped(n as int),
{
    if n > 0xffff_ffff_ffff_ffff {
        u64::MAX
    } else {
        n as u64
    }
}

fn line_ticks(line: &str) -> (r: Ticks)
    ensures
        r == ticks_of(line@),
{
    let words = text::split_words(line);
    let list = counts_in(&words);
    assert(text::texts(words@).len() == words@.len());
    let busy: u128 = sum_in(&list, 0, 3) + sum_in(&list, 5, 8);
    let total: u128 = sum_in(&list, 0, 8);
    Ticks { busy: cap(busy), total: cap(total) }
}

/// The ticks that `/proc/stat` counts.
pub fn cpu_ticks(contents: &str) -> (r: Vec<Ticks>)
    ensures
        r@ == ticks(text::lines(contents@), text::lines(contents@).len() as int),
{
    let lines = text::split_lines(contents);
    let ghost all = text::lines(contents@);
    let mut out: Vec<Ticks> = Vec::new();
    let mut i: usize = 0;
    while i < lines.len()
        invariant
            i <= lines.len(),
            all == text::texts(lines@),
            out@ == ticks(all, i as int),
        decreases lines.len() - i,
    {
        assert(all[i as int] == lines@[i as int]@);
        if text::has_prefix(lines[i].as_str(), "cpu") {
            out.push(line_ticks(lines[i].as_str()));
        }
        i += 1;
    }
    assert(all.len() == lines.len());
    out
}

/// What a counter went up by; one that was set back went up by nothing.
pub open spec fn gain(from: u64, to: u64) -> nat {
    if from < to {
        (to - from) as nat
    } else {
        0
    }
}

pub open spec fn busy_gain(before: Ticks, after: Ticks) -> nat {
    gain(before.busy, after.busy)
}

pub open spec fn total_gain(before: Ticks, after: Ticks) -> nat {
    gain(before.total, after.total)
}

/// Whether this is how busy a processor was between two samples.
pub open spec fn is_core(c: Core, before: Ticks, after: Ticks) -> bool {
    let busy = busy_gain(before, after);
    let total = total_gain(before, after);
    &&& c.percent@ == percent_digits(busy, total)
    &&& c.bar == (if twentieths(busy, total) > usize::MAX {
        usize::MAX as nat
    } else {
        twentieths(busy, total)
    })
}

/// How busy each processor was, as far as both samples tell.
pub fn cores(before: &Vec<Ticks>, after: &Vec<Ticks>) -> (r: Vec<Core>)
    ensures
        r@.len() == (if before@.len() < after@.len() {
            before@.len()
        } else {
            after@.len()
        }),
        forall|i: int| 0 <= i < r@.len() ==> is_core(#[trigger] r@[i], before@[i], after@[i]),
{
    let mut out: Vec<Core> = Vec::new();
    let mut i: usize = 0;
    while i < before.len() && i < after.len()
        invariant
            i <= before.len(),
            i <= after.len(),
            out@.len() == i,
            forall|k: int| 0 <= k < i ==> is_core(#[trigger] out@[k], before@[k], after@[k]),
        decreases before.len() - i,
    {
        let busy: u64 = after[i].busy.saturating_sub(before[i].busy);
        let total: u64 = after[i].total.saturating_sub(before[i].total);
        let bar: u128 = twentieths_of(busy, total);
        let bar: usize = if bar > usize::MAX as u128 {
            usize::MAX
        } else {
            bar as usize
        };
        out.push(Core { percent: percent_number(busy, total), bar });
        i += 1;
    }
    out
}

// --------------------------------------------------------- disks and networks

/// Bytes that went in and out of a device or an interface.
#[derive(Debug)]
pub struct Counter {
    pub name: String,
    pub inward: u64,
    pub outward: u64,
}

#[verifier::ext_equal]
pub struct CounterModel {
    pub name: Seq<char>,
    pub inward: u64,
    pub outward: u64,
}

impl View for Counter {
    type V = CounterModel;

    open spec fn view(&self) -> CounterModel {
        CounterModel { name: self.name@, inward: self.inward, outward: self.outward }
    }
}

pub open spec fn counters(v: Seq<Counter>) -> Seq<CounterModel> {
    v.map_values(|c: Counter| c@)
}

pub open spec fn counter(
    name: Seq<char>,
    inward: Option<nat>,
    outward: Option<nat>,
) -> Option<CounterModel> {
    match (inward, outward) {
        (Some(a), Some(b)) => Some(CounterModel { name, inward: a as u64, outward: b as u64 }),
        _ => None,
    }
}

/// A line of `/proc/diskstats`: the third word is the device, the sixth
/// counts the sectors read and the tenth those written.
pub open spec fn disk_counter(line: Seq<char>) -> Option<CounterModel> {
    let words = text::words(line);
    if words.len() < 10 {
        None
    } else {
        counter(words[2], times(words[5], 512), times(words[9], 512))
    }
}

/// A line of `/proc/net/dev`: before the colon the interface, behind it first
/// the bytes received and ninth those sent. The machine's talk with itself is
/// left out.
pub open spec fn net_counter(line: Seq<char>) -> Option<CounterModel> {
    match text::halves(line, ":"@) {
        Some((name, rest)) => {
            let words = text::words(rest);
            if text::trim(name) == "lo"@ || words.len() < 9 {
                None
            } else {
                counter(text::trim(name), times(words[0], 1), times(words[8], 1))
            }
        },
        None => None,
    }
}

pub open spec fn disk_counters(lines: Seq<Seq<char>>, n: int) -> Seq<CounterModel>
    decreases n,
{
    if n <= 0 {
        Seq::empty()
    } else {
        match disk_counter(lines[n - 1]) {
            Some(c) => disk_counters(lines, n - 1).push(c),
            None => disk_counters(lines, n - 1),
        }
    }
}

pub open spec fn net_counters(lines: Seq<Seq<char>>, n: int) -> Seq<CounterModel>
    decreases n,
{
    if n <= 0 {
        Seq::empty()
    } else {
        match net_counter(lines[n - 1]) {
            Some(c) => net_counters(lines, n - 1).push(c),
            None => net_counters(lines, n - 1),
        }
    }
}

pub open spec fn opt_counter(o: Option<Counter>) -> Option<CounterModel> {
    match o {
        Some(c) => Some(c@),
        None => None,
    }
}

fn counter_of(name: &str, inward: Option<u64>, outward: Option<u64>) -> (r: Option<Counter>)
    ensures
        opt_counter(r) == (match (inward, outward) {
            (Some(a), Some(b)) => Some(CounterModel { name: name@, inward: a, outward: b }),
            _ => None,
        }),
{
    match (inward, outward) {
        (Some(a), Some(b)) => Some(Counter { name: name.to_owned(), inward: a, outward: b }),
        _ => None,
    }
}

fn disk_line(line: &str) -> (r: Option<Counter>)
    ensures
        opt_counter(r) == disk_counter(line@),
{
    let words = text::split_words(line);
    let ghost all = text::words(line@);
    assert(all.len() == words@.len());
    if words.len() < 10 {
        return None;
    }
    assert(all[2] == words@[2]@ && all[5] == words@[5]@ && all[9] == words@[9]@);
    let read = scaled(words[5].as_str(), 512);
    let written = scaled(words[9].as_str(), 512);
    counter_of(words[2].as_str(), read, written)
}

fn net_line(line: &str) -> (r: Option<Counter>)
    ensures
        opt_counter(r) == net_counter(line@),
{
    match text::cut_at(line, ":") {
        Some((name, rest)) => {
            let name = text::trimmed(name.as_str());
            let words = text::split_words(rest.as_str());
            let ghost all = text::words(rest@);
            assert(all.len() == words@.len());
            if text::same(name.as_str(), "lo") || words.len() < 9 {
                return None;
            }
            assert(all[0] == words@[0]@ && all[8] == words@[8]@);
            let received = scaled(words[0].as_str(), 1);
            let sent = scaled(words[8].as_str(), 1);
            counter_of(name.as_str(), received, sent)
        },
        None => None,
    }
}

/// The bytes that `/proc/diskstats` counts.
pub fn disk_bytes(contents: &str) -> (r: Vec<Counter>)
    ensures
        counters(r@) == disk_counters(
            text::lines(contents@),
            text::lines(contents@).len() as int,
        ),
{
    let lines = text::split_lines(contents);
    let ghost all = text::lines(contents@);
    let mut out: Vec<Counter> = Vec::new();
    let mut i: usize = 0;
    assert(counters(out@) =~= Seq::empty());
    while i < lines.len()
        invariant
            i <= lines.len(),
            all == text::texts(lines@),
            counters(out@) == disk_counters(all, i as int),
        decreases lines.len() - i,
    {
        assert(all[i as int] == lines@[i as int]@);
        let ghost had = out@;
        if let Some(c) = disk_line(lines[i].as_str()) {
            out.push(c);
            assert(counters(out@) =~= counters(had).push(c@));
        }
        i += 1;
    }
    assert(all.len() == lines.len());
    out
}

/// The bytes that `/proc/net/dev` counts.
pub fn net_bytes(contents: &str) -> (r: Vec<Counter>)
    ensures
        counters(r@) == net_counters(text::lines(contents@), text::lines(contents@).len() as int),
{
    let lines = text::split_lines(contents);
    let ghost all = text::lines(contents@);
    let mut out: Vec<Counter> = Vec::new();
    let mut i: usize = 0;
    assert(counters(out@) =~= Seq::empty());
    while i < lines.len()
        invariant
            i <= lines.len(),
            all == text::texts(lines@),
            counters(out@) == net_counters(all, i as int),
        decreases lines.len() - i,
    {
        assert(all[i as int] == lines@[i as int]@);
        let ghost had = out@;
        if let Some(c) = net_line(lines[i].as_str()) {
            out.push(c);
            assert(counters(out@) =~= counters(had).push(c@));
        }
        i += 1;
    }
    assert(all.len() == lines.len());
    out
}

/// The first counter of that name, from `from` on.
pub open spec fn counter_named(
    list: Seq<CounterModel>,
    name: Seq<char>,
    from: int,
) -> Option<CounterModel>
    decreases list.len() - from,
{
    if from >= list.len() {
        None
    } else if list[from].name == name {
        Some(list[from])
    } else {
        counter_named(list, name, from + 1)
    }
}

/// How many a second.
pub open spec fn per_second(from: u64, to: u64, millis: u64) -> u64 {
    capped((gain(from, to) * 1000) as int / millis as int)
}

pub open spec fn rated(before: CounterModel, after: CounterModel, millis: u64) -> CounterModel {
    CounterModel {
        name: after.name,
        inward: per_second(before.inward, after.inward, millis),
        outward: per_second(before.outward, after.outward, millis),
    }
}

/// The rates of the first `n` counters, of those that were there before.
pub open spec fn rates_of(
    before: Seq<CounterModel>,
    after: Seq<CounterModel>,
    n: int,
    millis: u64,
) -> Seq<CounterModel>
    decreases n,
{
    if n <= 0 {
        Seq::empty()
    } else {
        match counter_named(before, after[n - 1].name, 0) {
            Some(c) => rates_of(before, after, n - 1, millis).push(
                rated(c, after[n - 1], millis),
            ),
            None => rates_of(before, after, n - 1, millis),
        }
    }
}

pub open spec fn shown_rates(v: Seq<Rate>) -> Seq<CounterModel> {
    v.map_values(
        |r: Rate| CounterModel { name: r.name@, inward: r.inward, outward: r.outward },
    )
}

fn each_second(from: u64, to: u64, millis: u64) -> (r: u64)
    requires
        millis > 0,
    ensures
        r == per_second(from, to, millis),
{
    let gained: u64 = to.saturating_sub(from);
    cap(gained as u128 * 1000 / millis as u128)
}

fn find_counter(list: &Vec<Counter>, name: &str) -> (r: Option<usize>)
    ensures
        match r {
            Some(i) => i < list@.len() && counter_named(counters(list@), name@, 0) == Some(
                list@[i as int]@,
            ),
            None => counter_named(counters(list@), name@, 0) is None,
        },
{
    let ghost all = counters(list@);
    let mut i: usize = 0;
    while i < list.len()
        invariant
            i <= list.len(),
            all == counters(list@),
            counter_named(all, name@, 0) == counter_named(all, name@, i as int),
        decreases list.len() - i,
    {
        assert(all[i as int] == list@[i as int]@);
        if text::same(list[i].name.as_str(), name) {
            return Some(i);
        }
        i += 1;
    }
    None
}

/// What went in and out each second between two samples.
pub fn rates(before: &Vec<Counter>, after: &Vec<Counter>, millis: u64) -> (r: Vec<Rate>)
    requires
        millis > 0,
    ensures
        shown_rates(r@) == rates_of(
            counters(before@),
            counters(after@),
            after@.len() as int,
            millis,
        ),
{
    let ghost was = counters(before@);
    let ghost is = counters(after@);
    let mut out: Vec<Rate> = Vec::new();
    let mut i: usize = 0;
    assert(shown_rates(out@) =~= Seq::empty());
    while i < after.len()
        invariant
            i <= after.len(),
            millis > 0,
            was == counters(before@),
            is == counters(after@),
            shown_rates(out@) == rates_of(was, is, i as int, millis),
        decreases after.len() - i,
    {
        let now = &after[i];
        assert(is[i as int] == now@);
        let ghost had = out@;
        if let Some(k) = find_counter(before, now.name.as_str()) {
            let rate = Rate {
                name: now.name.clone(),
                inward: each_second(before[k].inward, now.inward, millis),
                outward: each_second(before[k].outward, now.outward, millis),
            };
            let ghost shown = rated(before@[k as int]@, now@, millis);
            out.push(rate);
            assert(shown_rates(out@) =~= shown_rates(had).push(shown));
        }
        i += 1;
    }
    out
}

// -------------------------------------------------------------------- memory

/// What a line of `/proc/meminfo` says of `key`, in bytes.
pub open spec fn memory_line(line: Seq<char>, key: Seq<char>) -> Option<nat> {
    match text::halves(line, ":"@) {
        Some((name, rest)) => if name == key && text::words(rest).len() > 0 {
            times(text::words(rest)[0], 1024)
        } else {
            None
        },
        None => None,
    }
}

/// What the lines from `from` on say of `key`; nothing where none does.
pub open spec fn memory_from(lines: Seq<Seq<char>>, key: Seq<char>, from: int) -> nat
    decreases lines.len() - from,
{
    if from >= lines.len() {
        0
    } else {
        match memory_line(lines[from], key) {
            Some(n) => n,
            None => memory_from(lines, key, from + 1),
        }
    }
}

fn memory_in(line: &str, key: &str) -> (r: Option<u64>)
    ensures
        match r {
            Some(n) => memory_line(line@, key@) == Some(n as nat),
            None => memory_line(line@, key@) is None,
        },
{
    match text::cut_at(line, ":") {
        Some((name, rest)) => {
            let words = text::split_words(rest.as_str());
            let ghost all = text::words(rest@);
            assert(all.len() == words@.len());
            if !text::same(name.as_str(), key) || words.len() == 0 {
                return None;
            }
            assert(all[0] == words@[0]@);
            scaled(words[0].as_str(), 1024)
        },
        None => None,
    }
}

/// How many bytes `/proc/meminfo` gives for `key`.
pub fn memory_bytes(contents: &str, key: &str) -> (r: u64)
    ensures
        r == memory_from(text::lines(contents@), key@, 0),
{
    let lines = text::split_lines(contents);
    let ghost all = text::lines(contents@);
    let mut i: usize = 0;
    while i < lines.len()
        invariant
            i <= lines.len(),
            all == text::lines(contents@),
            all == text::texts(lines@),
            memory_from(all, key@, 0) == memory_from(all, key@, i as int),
        decreases lines.len() - i,
    {
        assert(all.len() == lines.len());
        assert(all[i as int] == lines@[i as int]@);
        if let Some(n) = memory_in(lines[i].as_str(), key) {
            return n;
        }
        i += 1;
    }
    assert(all.len() == lines.len());
    0
}

// ------------------------------------------------------------------------ laws


/// Numbers as they are written, with a space between.
pub open spec fn spaced(lead: Seq<Seq<char>>, numbers: Seq<u64>) -> Seq<char> {
    text::join(lead + written(numbers), " "@)
}

pub open spec fn written(numbers: Seq<u64>) -> Seq<Seq<char>> {
    Seq::new(numbers.len(), |i: int| text::decimal(numbers[i] as nat))
}

proof fn lemma_decimal_is_a_word(n: nat)
    ensures
        text::one_word(text::decimal(n)),
{
    text::lemma_decimal(n);
    let s = text::decimal(n);
    assert forall|i: int| 0 <= i < s.len() implies !text::white(#[trigger] s[i]) by {
        assert(text::digit(s[i]));
    }
}

proof fn lemma_spaced_words(lead: Seq<Seq<char>>, numbers: Seq<u64>)
    requires
        forall|i: int| 0 <= i < lead.len() ==> text::one_word(#[trigger] lead[i]),
    ensures
        text::words(spaced(lead, numbers)) == lead + written(numbers),
{
    let list = lead + written(numbers);
    assert forall|i: int| 0 <= i < list.len() implies text::one_word(#[trigger] list[i]) by {
        if i >= lead.len() {
            assert(list[i] == text::decimal(numbers[i - lead.len()] as nat));
            lemma_decimal_is_a_word(numbers[i - lead.len()] as nat);
        } else {
            assert(list[i] == lead[i]);
        }
    }
    text::law_words_read_back(list);
}

proof fn lemma_written_counts(lead: Seq<char>, numbers: Seq<u64>, n: int)
    requires
        0 <= n <= numbers.len(),
    ensures
        counts(seq![lead] + written(numbers), n + 1).len() == n,
        forall|i: int|
            0 <= i < n ==> #[trigger] counts(seq![lead] + written(numbers), n + 1)[i]
                == numbers[i],
    decreases n,
{
    let words = seq![lead] + written(numbers);
    if n > 0 {
        lemma_written_counts(lead, numbers, n - 1);
        assert(words[n] == text::decimal(numbers[n - 1] as nat));
        text::lemma_number_of_decimal(numbers[n - 1] as nat, u64::MAX as nat);
        assert(counts(words, n + 1) == counts(words, n).push(numbers[n - 1] as nat));
    }
}

/// Of the eight times on a line of `/proc/stat` all count, and all but the
/// fourth and the fifth, which are idle, are busy.
pub proof fn law_idle_time_is_not_busy(name: Seq<char>, t: Seq<u64>)
    requires
        text::one_word(name),
        t.len() >= 8,
        t[0] + t[1] + t[2] + t[3] + t[4] + t[5] + t[6] + t[7] <= u64::MAX,
    ensures
        ticks_of(spaced(seq![name], t)).total == t[0] + t[1] + t[2] + t[3] + t[4] + t[5] + t[6]
            + t[7],
        ticks_of(spaced(seq![name], t)).busy + t[3] + t[4] == ticks_of(
            spaced(seq![name], t),
        ).total,
{
    let words = seq![name] + written(t);
    assert(seq![name][0] == name);
    lemma_spaced_words(seq![name], t);
    lemma_written_counts(name, t, t.len() as int);
    let list = counts(words, words.len() as int);
    assert(list.len() == t.len());
    reveal_with_fuel(sum, 9);
    assert(list[0] == t[0] && list[1] == t[1] && list[2] == t[2] && list[3] == t[3]);
    assert(list[4] == t[4] && list[5] == t[5] && list[6] == t[6] && list[7] == t[7]);
}

/// A counter that went up from one number to another in some time did so by
/// as many a second, rounded down; one that was set back by none.
pub proof fn law_rates_are_gains_over_time(before: CounterModel, after: CounterModel, millis: u64)
    requires
        millis > 0,
        after.inward >= before.inward ==> (after.inward - before.inward) * 1000 <= u64::MAX,
        after.outward >= before.outward ==> (after.outward - before.outward) * 1000 <= u64::MAX,
    ensures
        ({
            let r = rated(before, after, millis);
            &&& r.name == after.name
            &&& after.inward < before.inward ==> r.inward == 0
            &&& after.inward >= before.inward ==> r.inward * millis <= (after.inward
                - before.inward) * 1000 < (r.inward + 1) * millis
            &&& after.outward < before.outward ==> r.outward == 0
            &&& after.outward >= before.outward ==> r.outward * millis <= (after.outward
                - before.outward) * 1000 < (r.outward + 1) * millis
        }),
{
    lemma_per_second(before.inward, after.inward, millis);
    lemma_per_second(before.outward, after.outward, millis);
}

proof fn lemma_per_second(from: u64, to: u64, millis: u64)
    requires
        millis > 0,
        to >= from ==> (to - from) * 1000 <= u64::MAX,
    ensures
        to < from ==> per_second(from, to, millis) == 0,
        to >= from ==> per_second(from, to, millis) * millis <= (to - from) * 1000 < (per_second(
            from,
            to,
            millis,
        ) + 1) * millis,
{
    let n: int = if to >= from {
        (to - from) * 1000
    } else {
        0
    };
    let d = millis as int;
    let q = n / d;
    vstd::arithmetic::div_mod::lemma_fundamental_div_mod(n, d);
    vstd::arithmetic::div_mod::lemma_div_is_ordered_by_denominator(n, 1, d);
    assert(0 <= q <= n) by (nonlinear_arith)
        requires
            q == n / d,
            n >= 0,
            d >= 1,
    ;
    assert((gain(from, to) * 1000) as int == n);
    assert(per_second(from, to, millis) == q);
    assert(q * d <= n && n < (q + 1) * d) by (nonlinear_arith)
        requires
            n == d * q + n % d,
            0 <= n % d < d,
    ;
}

/// The devices told are those that were there before as well, each with the
/// rates since.
pub proof fn law_rates_are_told_for_what_was_there(
    before: Seq<CounterModel>,
    after: Seq<CounterModel>,
    n: int,
    millis: u64,
)
    requires
        0 <= n <= after.len(),
    ensures
        order::stands_for(
            rates_of(before, after, n, millis),
            after,
            n,
            |a: CounterModel|
                exists|i: int| 0 <= i < before.len() && (#[trigger] before[i]).name == a.name,
            |r: CounterModel, a: CounterModel|
                exists|i: int|
                    {
                        &&& 0 <= i < before.len()
                        &&& (#[trigger] before[i]).name == a.name
                        &&& forall|k: int| 0 <= k < i ==> (#[trigger] before[k]).name != a.name
                        &&& r == rated(before[i], a, millis)
                    },
        ),
    decreases n,
{
    let wanted = |a: CounterModel|
        exists|i: int| 0 <= i < before.len() && (#[trigger] before[i]).name == a.name;
    let fits = |r: CounterModel, a: CounterModel|
        exists|i: int|
            {
                &&& 0 <= i < before.len()
                &&& (#[trigger] before[i]).name == a.name
                &&& forall|k: int| 0 <= k < i ==> (#[trigger] before[k]).name != a.name
                &&& r == rated(before[i], a, millis)
            };
    let list = rates_of(before, after, n, millis);
    if n > 0 {
        law_rates_are_told_for_what_was_there(before, after, n - 1, millis);
        let had = rates_of(before, after, n - 1, millis);
        let a = after[n - 1];
        lemma_counter_named(before, a.name, 0);
        match counter_named(before, a.name, 0) {
            Some(c) => {
                let i = choose|i: int|
                    {
                        &&& 0 <= i < before.len()
                        &&& #[trigger] before[i] == c
                        &&& c.name == a.name
                        &&& forall|k: int| 0 <= k < i ==> (#[trigger] before[k]).name != a.name
                    };
                assert(before[i].name == a.name);
                assert(wanted(a));
                assert(fits(rated(c, a, millis), a));
                order::lemma_stands_for_more(had, after, n, wanted, fits, rated(c, a, millis));
            },
            None => {
                assert(!wanted(a));
                order::lemma_stands_for_same(had, after, n, wanted, fits);
            },
        }
    } else {
        order::lemma_stands_for_none(list, after, wanted, fits);
    }
}

proof fn lemma_counter_named(list: Seq<CounterModel>, name: Seq<char>, from: int)
    requires
        0 <= from <= list.len(),
        forall|k: int| 0 <= k < from ==> (#[trigger] list[k]).name != name,
    ensures
        match counter_named(list, name, from) {
            Some(c) => exists|i: int|
                {
                    &&& 0 <= i < list.len()
                    &&& #[trigger] list[i] == c
                    &&& c.name == name
                    &&& forall|k: int| 0 <= k < i ==> (#[trigger] list[k]).name != name
                },
            None => forall|k: int| 0 <= k < list.len() ==> (#[trigger] list[k]).name != name,
        },
    decreases list.len() - from,
{
    if from < list.len() {
        if list[from].name == name {
            assert(list[from] == counter_named(list, name, from)->0);
        } else {
            lemma_counter_named(list, name, from + 1);
        }
    }
}

/// A line of `/proc/diskstats` tells the device third, the sectors of 512
/// bytes read sixth, and those written tenth.
pub proof fn law_disk_lines_are_read(
    major: Seq<char>,
    minor: Seq<char>,
    device: Seq<char>,
    t: Seq<u64>,
)
    requires
        text::one_word(major),
        text::one_word(minor),
        text::one_word(device),
        t.len() >= 7,
        t[2] * 512 <= u64::MAX,
        t[6] * 512 <= u64::MAX,
    ensures
        disk_counter(spaced(seq![major, minor, device], t)) is Some,
        disk_counter(spaced(seq![major, minor, device], t))->0.name == device,
        disk_counter(spaced(seq![major, minor, device], t))->0.inward == t[2] * 512,
        disk_counter(spaced(seq![major, minor, device], t))->0.outward == t[6] * 512,
{
    let lead = seq![major, minor, device];
    assert(lead[0] == major && lead[1] == minor && lead[2] == device);
    lemma_spaced_words(lead, t);
    let words = lead + written(t);
    assert(words[2] == device);
    assert(words[5] == text::decimal(t[2] as nat));
    assert(words[9] == text::decimal(t[6] as nat));
    text::lemma_number_of_decimal(t[2] as nat, u64::MAX as nat);
    text::lemma_number_of_decimal(t[6] as nat, u64::MAX as nat);
}

/// A line of `/proc/net/dev` tells the interface before the colon, then the
/// bytes received first and those sent ninth. The loopback interface is not
/// told of.
pub proof fn law_network_lines_are_read(name: Seq<char>, t: Seq<u64>)
    requires
        text::one_word(name),
        !name.contains(':'),
        t.len() >= 9,
    ensures
        ({
            let line = "  "@ + name + ":"@ + spaced(Seq::empty(), t);
            &&& name == "lo"@ ==> net_counter(line) is None
            &&& name != "lo"@ ==> net_counter(line) == Some(
                CounterModel { name, inward: t[0], outward: t[8] },
            )
        }),
{
    reveal_strlit("  ");
    reveal_strlit(":");
    let rest = spaced(Seq::empty(), t);
    let line = "  "@ + name + ":"@ + rest;
    let head = "  "@ + name;
    assert(":"@ =~= seq![':']);
    assert(line =~= head + seq![':'] + rest);
    assert(!head.contains(':')) by {
        assert forall|i: int| 0 <= i < head.len() implies head[i] != ':' by {
            if i >= 2 {
                assert(head[i] == name[i - 2]);
                assert(name.contains(name[i - 2]));
            }
        }
    }
    text::law_halves_at_the_first(head, ':', rest);
    text::law_trim_takes_the_ends("  "@, name, Seq::empty());
    assert("  "@ + name + Seq::empty() =~= head);
    lemma_spaced_words(Seq::empty(), t);
    let words = Seq::<Seq<char>>::empty() + written(t);
    assert(words[0] == text::decimal(t[0] as nat));
    assert(words[8] == text::decimal(t[8] as nat));
    text::lemma_number_of_decimal(t[0] as nat, u64::MAX as nat);
    text::lemma_number_of_decimal(t[8] as nat, u64::MAX as nat);
}

/// What is told of memory first under a name counts, in KiB.
pub proof fn law_memory_is_told_in_kib(
    lines: Seq<Seq<char>>,
    keys: Seq<Seq<char>>,
    values: Seq<u64>,
    i: int,
)
    requires
        lines.len() == keys.len() == values.len(),
        0 <= i < lines.len(),
        forall|k: int| 0 <= k < lines.len() ==> !(#[trigger] keys[k]).contains(':'),
        forall|k: int|
            0 <= k < lines.len() ==> #[trigger] lines[k] == keys[k] + ":"@ + spaced(
                Seq::empty(),
                seq![values[k]],
            ) + " kB"@,
        forall|k: int| 0 <= k < i ==> (#[trigger] keys[k]) != keys[i],
        values[i] * 1024 <= u64::MAX,
    ensures
        memory_from(lines, keys[i], 0) == values[i] * 1024,
{
    lemma_memory_from(lines, keys, values, i, 0);
}

proof fn lemma_memory_line(key: Seq<char>, want: Seq<char>, value: u64)
    requires
        !key.contains(':'),
    ensures
        ({
            let line = key + ":"@ + spaced(Seq::empty(), seq![value]) + " kB"@;
            &&& key != want ==> memory_line(line, want) is None
            &&& key == want && value * 1024 <= u64::MAX ==> memory_line(line, want) == Some(
                (value * 1024) as nat,
            )
        }),
{
    reveal_strlit(":");
    reveal_strlit(" kB");
    reveal_strlit("kB");
    assert(":"@ =~= seq![':']);
    let rest = spaced(Seq::empty(), seq![value]) + " kB"@;
    let line = key + ":"@ + spaced(Seq::empty(), seq![value]) + " kB"@;
    assert(line =~= key + seq![':'] + rest);
    text::law_halves_at_the_first(key, ':', rest);
    let digits = text::decimal(value as nat);
    let list = Seq::<Seq<char>>::empty() + written(seq![value]);
    assert(list =~= seq![digits]);
    assert(text::join(seq![digits], " "@) == digits) by {
        reveal_with_fuel(text::join, 2);
    }
    assert(rest =~= digits + seq![' '] + "kB"@);
    lemma_decimal_is_a_word(value as nat);
    text::law_words_of_both_sides(digits, ' ', "kB"@);
    text::law_one_word_is_itself(digits);
    assert(text::words(rest)[0] == digits);
    text::lemma_number_of_decimal(value as nat, u64::MAX as nat);
}

proof fn lemma_memory_from(
    lines: Seq<Seq<char>>,
    keys: Seq<Seq<char>>,
    values: Seq<u64>,
    i: int,
    from: int,
)
    requires
        lines.len() == keys.len() == values.len(),
        0 <= from <= i < lines.len(),
        forall|k: int| 0 <= k < lines.len() ==> !(#[trigger] keys[k]).contains(':'),
        forall|k: int|
            0 <= k < lines.len() ==> #[trigger] lines[k] == keys[k] + ":"@ + spaced(
                Seq::empty(),
                seq![values[k]],
            ) + " kB"@,
        forall|k: int| 0 <= k < i ==> (#[trigger] keys[k]) != keys[i],
        values[i] * 1024 <= u64::MAX,
    ensures
        memory_from(lines, keys[i], from) == values[i] * 1024,
    decreases i - from,
{
    lemma_memory_line(keys[from], keys[i], values[from]);
    assert(lines[from] == keys[from] + ":"@ + spaced(Seq::empty(), seq![values[from]]) + " kB"@);
    if from < i {
        lemma_memory_from(lines, keys, values, i, from + 1);
    }
}

} // verus!

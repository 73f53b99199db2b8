//! Text as sequences of characters: lines, words, fields, numbers.

use vstd::prelude::*;
use vstd::utf8::{decode_utf8, encode_utf8, encode_utf8_decode_utf8, valid_utf8};

verus! {

broadcast use vstd::seq::group_seq_axioms;

/// `String::push` appends the one character it is given.
pub assume_specification[ String::push ](s: &mut String, c: char)
    ensures
        final(s)@ == old(s)@.push(c),
;

/// The texts of a list of strings.
pub open spec fn texts(v: Seq<String>) -> Seq<Seq<char>> {
    Seq::new(v.len(), |i: int| v[i]@)
}

/// The characters of `s`.
pub fn chars_of(s: &str) -> (r: Vec<char>)
    ensures
        r@ == s@,
{
    let mut out: Vec<char> = Vec::new();
    for c in it: s.chars()
        invariant
            it.seq() == s@,
            out@ == s@.take(it.index()),
    {
        out.push(c);
        assert(out@ == s@.take(it.index() + 1));
    }
    assert(s@.take(s@.len() as int) == s@);
    out
}

/// The string made of `v[from..to]`.
pub fn piece(v: &Vec<char>, from: usize, to: usize) -> (r: String)
    requires
        from <= to <= v.len(),
    ensures
        r@ == v@.subrange(from as int, to as int),
{
    let mut out = String::new();
    let mut i: usize = from;
    while i < to
        invariant
            from <= i <= to <= v.len(),
            out@ == v@.subrange(from as int, i as int),
        decreases to - i,
    {
        out.push(v[i]);
        i += 1;
        assert(v@.subrange(from as int, i as int) == v@.subrange(from as int, i - 1).push(v@[i - 1]));
    }
    out
}

/// A copy of every string of `v`.
pub fn copies(v: &Vec<String>) -> (r: Vec<String>)
    ensures
        texts(r@) == texts(v@),
{
    let mut out: Vec<String> = Vec::new();
    let mut i: usize = 0;
    while i < v.len()
        invariant
            i <= v.len(),
            out.len() == i,
            forall|k: int| 0 <= k < i ==> (#[trigger] out@[k])@ == v@[k]@,
        decreases v.len() - i,
    {
        out.push(v[i].clone());
        i += 1;
    }
    assert(texts(out@) =~= texts(v@));
    out
}

/// Whether two texts are the same.
pub fn same(a: &str, b: &str) -> (r: bool)
    ensures
        r == (a@ == b@),
{
    a.to_owned() == b.to_owned()
}

/// Whether two lists of texts are the same.
pub fn same_list(a: &Vec<String>, b: &Vec<String>) -> (r: bool)
    ensures
        r == (texts(a@) == texts(b@)),
{
    if a.len() != b.len() {
        assert(texts(a@).len() != texts(b@).len());
        return false;
    }
    let mut i: usize = 0;
    while i < a.len()
        invariant
            i <= a.len() == b.len(),
            forall|k: int| 0 <= k < i ==> (#[trigger] a@[k])@ == b@[k]@,
        decreases a.len() - i,
    {
        if a[i] != b[i] {
            assert(texts(a@)[i as int] != texts(b@)[i as int]);
            return false;
        }
        i += 1;
    }
    assert(texts(a@) =~= texts(b@));
    true
}

/// Whether `v` holds a string with the text of `s`.
pub fn holds(v: &Vec<String>, s: &str) -> (r: bool)
    ensures
        r == texts(v@).contains(s@),
{
    let mut i: usize = 0;
    while i < v.len()
        invariant
            i <= v.len(),
            forall|k: int| 0 <= k < i ==> (#[trigger] v@[k])@ != s@,
        decreases v.len() - i,
    {
        if same(v[i].as_str(), s) {
            assert(texts(v@)[i as int] == s@);
            return true;
        }
        i += 1;
    }
    assert forall|k: int| 0 <= k < texts(v@).len() implies texts(v@)[k] != s@ by {
        assert(texts(v@)[k] == v@[k]@);
    }
    false
}

// ---------------------------------------------------------------- searching

/// The first position at or after `from` where `s` holds `c`, or its length.
pub open spec fn position(s: Seq<char>, c: char, from: int) -> int
    decreases s.len() - from,
{
    if from >= s.len() || s[from] == c {
        from
    } else {
        position(s, c, from + 1)
    }
}

pub proof fn lemma_position(s: Seq<char>, c: char, from: int)
    requires
        0 <= from <= s.len(),
    ensures
        from <= position(s, c, from) <= s.len(),
        position(s, c, from) < s.len() ==> s[position(s, c, from)] == c,
        forall|k: int| from <= k < position(s, c, from) ==> s[k] != c,
    decreases s.len() - from,
{
    if from < s.len() && s[from] != c {
        lemma_position(s, c, from + 1);
    }
}

/// A position without `c` before it is the one `position` finds.
pub proof fn lemma_position_is(s: Seq<char>, c: char, from: int, k: int)
    requires
        0 <= from <= k <= s.len(),
        k < s.len() ==> s[k] == c,
        forall|j: int| from <= j < k ==> s[j] != c,
    ensures
        position(s, c, from) == k,
    decreases k - from,
{
    if from < k {
        lemma_position_is(s, c, from + 1, k);
    }
}

pub fn find_char(v: &Vec<char>, c: char, from: usize) -> (r: usize)
    requires
        from <= v.len(),
    ensures
        r == position(v@, c, from as int),
        from <= r <= v.len(),
{
    let mut i: usize = from;
    while i < v.len() && v[i] != c
        invariant
            from <= i <= v.len(),
            position(v@, c, from as int) == position(v@, c, i as int),
        decreases v.len() - i,
    {
        i += 1;
    }
    i
}

/// Whether `s` holds `p` at position `at`.
pub open spec fn at(s: Seq<char>, p: Seq<char>, at: int) -> bool {
    0 <= at && at + p.len() <= s.len() && s.subrange(at, at + p.len()) == p
}

pub fn is_at(v: &Vec<char>, p: &Vec<char>, from: usize) -> (r: bool)
    requires
        from <= v.len(),
    ensures
        r == at(v@, p@, from as int),
{
    if v.len() - from < p.len() {
        return false;
    }
    let mut i: usize = 0;
    while i < p.len()
        invariant
            i <= p.len(),
            from + p.len() <= v.len(),
            forall|k: int| 0 <= k < i ==> v@[from + k] == p@[k],
        decreases p.len() - i,
    {
        if v[from + i] != p[i] {
            assert(v@.subrange(from as int, from + p@.len())[i as int] != p@[i as int]);
            return false;
        }
        i += 1;
    }
    assert(v@.subrange(from as int, from + p@.len()) =~= p@);
    true
}

/// The first position at or after `from` where `s` holds `p`.
pub open spec fn find(s: Seq<char>, p: Seq<char>, from: int) -> Option<int>
    decreases s.len() - from,
{
    if at(s, p, from) {
        Some(from)
    } else if from >= s.len() {
        None
    } else {
        find(s, p, from + 1)
    }
}

pub proof fn lemma_find(s: Seq<char>, p: Seq<char>, from: int)
    requires
        0 <= from <= s.len(),
    ensures
        match find(s, p, from) {
            Some(k) => from <= k <= s.len() && at(s, p, k) && forall|j: int|
                from <= j < k ==> !at(s, p, j),
            None => forall|j: int| from <= j <= s.len() ==> !at(s, p, j),
        },
    decreases s.len() - from,
{
    if !at(s, p, from) && from < s.len() {
        lemma_find(s, p, from + 1);
    }
}

pub proof fn lemma_find_is(s: Seq<char>, p: Seq<char>, from: int, k: int)
    requires
        0 <= from <= k <= s.len(),
        at(s, p, k),
        forall|j: int| from <= j < k ==> !at(s, p, j),
    ensures
        find(s, p, from) == Some(k),
    decreases k - from,
{
    if from < k {
        lemma_find_is(s, p, from + 1, k);
    }
}

pub fn find_text(v: &Vec<char>, p: &Vec<char>, from: usize) -> (r: Option<usize>)
    requires
        from <= v.len(),
    ensures
        match r {
            Some(k) => find(v@, p@, from as int) == Some(k as int) && from <= k && k + p.len()
                <= v.len(),
            None => find(v@, p@, from as int) is None,
        },
{
    let mut i: usize = from;
    while i < v.len()
        invariant
            from <= i <= v.len(),
            find(v@, p@, from as int) == find(v@, p@, i as int),
        decreases v.len() - i,
    {
        if is_at(v, p, i) {
            return Some(i);
        }
        i += 1;
    }
    if is_at(v, p, i) {
        Some(i)
    } else {
        None
    }
}

/// The last position before `end` where `s` holds `p`.
pub open spec fn rfind(s: Seq<char>, p: Seq<char>, end: int) -> Option<int>
    decreases end,
{
    if end <= 0 {
        None
    } else if at(s, p, end - 1) {
        Some(end - 1)
    } else {
        rfind(s, p, end - 1)
    }
}

pub proof fn lemma_rfind_is(s: Seq<char>, p: Seq<char>, end: int, k: int)
    requires
        0 <= k < end,
        at(s, p, k),
        forall|j: int| k < j < end ==> !at(s, p, j),
    ensures
        rfind(s, p, end) == Some(k),
    decreases end,
{
    if k < end - 1 {
        lemma_rfind_is(s, p, end - 1, k);
    }
}

pub fn rfind_text(v: &Vec<char>, p: &Vec<char>) -> (r: Option<usize>)
    requires
        p.len() > 0,
    ensures
        match r {
            Some(k) => rfind(v@, p@, v@.len() as int) == Some(k as int) && k + p.len() <= v.len(),
            None => rfind(v@, p@, v@.len() as int) is None,
        },
{
    let mut i: usize = v.len();
    while i > 0
        invariant
            i <= v.len(),
            rfind(v@, p@, v@.len() as int) == rfind(v@, p@, i as int),
        decreases i,
    {
        i -= 1;
        if is_at(v, p, i) {
            return Some(i);
        }
    }
    None
}

/// Whether `p` occurs in `s`.
pub open spec fn contains(s: Seq<char>, p: Seq<char>) -> bool {
    exists|k: int| at(s, p, k)
}

pub fn contains_text(s: &str, p: &str) -> (r: bool)
    ensures
        r == contains(s@, p@),
{
    let v = chars_of(s);
    let q = chars_of(p);
    proof {
        lemma_find(v@, q@, 0);
    }
    match find_text(&v, &q, 0) {
        Some(_) => true,
        None => {
            assert forall|k: int| !at(s@, p@, k) by {}
            false
        },
    }
}

pub open spec fn starts_with(s: Seq<char>, p: Seq<char>) -> bool {
    at(s, p, 0)
}

pub open spec fn ends_with(s: Seq<char>, p: Seq<char>) -> bool {
    at(s, p, s.len() - p.len())
}

pub fn has_prefix(s: &str, p: &str) -> (r: bool)
    ensures
        r == starts_with(s@, p@),
{
    let v = chars_of(s);
    let q = chars_of(p);
    is_at(&v, &q, 0)
}

/// What follows `p` at the start of `s`.
pub open spec fn after_prefix(s: Seq<char>, p: Seq<char>) -> Option<Seq<char>> {
    if starts_with(s, p) {
        Some(s.skip(p.len() as int))
    } else {
        None
    }
}

/// What precedes `p` at the end of `s`.
pub open spec fn before_suffix(s: Seq<char>, p: Seq<char>) -> Option<Seq<char>> {
    if ends_with(s, p) {
        Some(s.take(s.len() - p.len()))
    } else {
        None
    }
}

/// The text of an optional string.
pub open spec fn opt_text(o: Option<String>) -> Option<Seq<char>> {
    match o {
        Some(s) => Some(s@),
        None => None,
    }
}

pub fn copy_opt(o: &Option<String>) -> (r: Option<String>)
    ensures
        opt_text(r) == opt_text(*o),
{
    match o {
        Some(s) => Some(s.clone()),
        None => None,
    }
}

pub fn cut_prefix(s: &str, p: &str) -> (r: Option<String>)
    ensures
        opt_text(r) == after_prefix(s@, p@),
{
    let v = chars_of(s);
    let q = chars_of(p);
    if is_at(&v, &q, 0) {
        let rest = piece(&v, q.len(), v.len());
        assert(rest@ =~= s@.skip(p@.len() as int));
        Some(rest)
    } else {
        None
    }
}

pub fn cut_suffix(s: &str, p: &str) -> (r: Option<String>)
    ensures
        opt_text(r) == before_suffix(s@, p@),
{
    let v = chars_of(s);
    let q = chars_of(p);
    if q.len() <= v.len() && is_at(&v, &q, v.len() - q.len()) {
        let rest = piece(&v, 0, v.len() - q.len());
        assert(rest@ =~= s@.take(s@.len() - p@.len()));
        Some(rest)
    } else {
        None
    }
}

// ----------------------------------------------------------------- splitting

/// The fields of `s[from..]` between occurrences of `c`.
pub open spec fn fields_at(s: Seq<char>, c: char, from: int) -> Seq<Seq<char>>
    decreases s.len() - from,
{
    if from < 0 || from > s.len() {
        Seq::empty()
    } else {
        let k = position(s, c, from);
        if k < from || k >= s.len() {
            seq![s.subrange(from, s.len() as int)]
        } else {
            seq![s.subrange(from, k)] + fields_at(s, c, k + 1)
        }
    }
}

/// The fields of `s` between occurrences of `c`; one more than there are.
pub open spec fn fields(s: Seq<char>, c: char) -> Seq<Seq<char>> {
    fields_at(s, c, 0)
}

pub fn split(s: &str, c: char) -> (r: Vec<String>)
    ensures
        texts(r@) == fields(s@, c),
        r.len() > 0,
{
    let v = chars_of(s);
    let mut out: Vec<String> = Vec::new();
    let mut from: usize = 0;
    loop
        invariant
            v@ == s@,
            from <= v.len(),
            texts(out@) + fields_at(s@, c, from as int) == fields(s@, c),
        decreases v.len() - from,
    {
        let k = find_char(&v, c, from);
        let ghost before = out@;
        out.push(piece(&v, from, k));
        assert(texts(out@) =~= texts(before).push(v@.subrange(from as int, k as int)));
        if k == v.len() {
            assert(texts(out@) =~= fields(s@, c));
            return out;
        }
        assert(texts(out@) + fields_at(s@, c, k + 1) =~= texts(before) + fields_at(
            s@,
            c,
            from as int,
        ));
        from = k + 1;
    }
}

/// `s` without the carriage return it may end in.
pub open spec fn chop_cr(s: Seq<char>) -> Seq<char> {
    if s.len() > 0 && s.last() == '\r' {
        s.drop_last()
    } else {
        s
    }
}

/// The lines of `s[from..]`: each ends at a line feed, which with a carriage
/// return before it is not part of the line; the last may end with the text.
pub open spec fn lines_at(s: Seq<char>, from: int) -> Seq<Seq<char>>
    decreases s.len() - from,
{
    if from < 0 || from >= s.len() {
        Seq::empty()
    } else {
        let k = position(s, '\n', from);
        if k < from || k >= s.len() {
            seq![s.subrange(from, s.len() as int)]
        } else {
            seq![chop_cr(s.subrange(from, k))] + lines_at(s, k + 1)
        }
    }
}

pub open spec fn lines(s: Seq<char>) -> Seq<Seq<char>> {
    lines_at(s, 0)
}

pub fn split_lines(s: &str) -> (r: Vec<String>)
    ensures
        texts(r@) == lines(s@),
{
    let v = chars_of(s);
    let mut out: Vec<String> = Vec::new();
    let mut from: usize = 0;
    while from < v.len()
        invariant
            v@ == s@,
            from <= v.len(),
            texts(out@) + lines_at(s@, from as int) == lines(s@),
        decreases v.len() - from,
    {
        let k = find_char(&v, '\n', from);
        let ghost before = out@;
        if k == v.len() {
            out.push(piece(&v, from, k));
            assert(texts(out@) =~= texts(before) + lines_at(s@, from as int));
            return out;
        }
        let end: usize = if k > from && v[k - 1] == '\r' {
            k - 1
        } else {
            k
        };
        assert(v@.subrange(from as int, end as int) =~= chop_cr(v@.subrange(from as int, k as int)));
        out.push(piece(&v, from, end));
        assert(texts(out@) + lines_at(s@, k + 1) =~= texts(before) + lines_at(s@, from as int));
        from = k + 1;
    }
    assert(texts(out@) =~= lines(s@));
    out
}

/// Whether `c` has the Unicode property White_Space.
pub open spec fn white(c: char) -> bool {
    ||| 0x09 <= c as u32 <= 0x0d
    ||| c as u32 == 0x20
    ||| c as u32 == 0x85
    ||| c as u32 == 0xa0
    ||| c as u32 == 0x1680
    ||| 0x2000 <= c as u32 <= 0x200a
    ||| c as u32 == 0x2028
    ||| c as u32 == 0x2029
    ||| c as u32 == 0x202f
    ||| c as u32 == 0x205f
    ||| c as u32 == 0x3000
}

pub fn is_white(c: char) -> (r: bool)
    ensures
        r == white(c),
{
    let u: u32 = c as u32;
    (0x09 <= u && u <= 0x0d) || u == 0x20 || u == 0x85 || u == 0xa0 || u == 0x1680 || (0x2000 <= u
        && u <= 0x200a) || u == 0x2028 || u == 0x2029 || u == 0x202f || u == 0x205f || u == 0x3000
}

/// The first position at or after `from` whose character is white or not, as
/// `w` says; the length where there is none.
pub open spec fn run_end(s: Seq<char>, w: bool, from: int) -> int
    decreases s.len() - from,
{
    if from >= s.len() || white(s[from]) == w {
        from
    } else {
        run_end(s, w, from + 1)
    }
}

fn find_run_end(v: &Vec<char>, w: bool, from: usize) -> (r: usize)
    requires
        from <= v.len(),
    ensures
        r == run_end(v@, w, from as int),
        from <= r <= v.len(),
        r < v.len() ==> white(v@[r as int]) == w,
{
    let mut i: usize = from;
    while i < v.len() && is_white(v[i]) != w
        invariant
            from <= i <= v.len(),
            run_end(v@, w, from as int) == run_end(v@, w, i as int),
        decreases v.len() - i,
    {
        i += 1;
    }
    i
}

pub proof fn lemma_run_end(s: Seq<char>, w: bool, from: int)
    requires
        0 <= from <= s.len(),
    ensures
        from <= run_end(s, w, from) <= s.len(),
        run_end(s, w, from) < s.len() ==> white(s[run_end(s, w, from)]) == w,
        forall|k: int| from <= k < run_end(s, w, from) ==> white(s[k]) != w,
    decreases s.len() - from,
{
    if from < s.len() && white(s[from]) != w {
        lemma_run_end(s, w, from + 1);
    }
}

/// The words of `s[from..]`: its longest runs without white space.
pub open spec fn words_at(s: Seq<char>, from: int) -> Seq<Seq<char>>
    decreases s.len() - from,
{
    let a = run_end(s, false, from);
    if from < 0 || a < from || a >= s.len() {
        Seq::empty()
    } else {
        let b = run_end(s, true, a);
        if b <= a || b > s.len() {
            Seq::empty()
        } else {
            seq![s.subrange(a, b)] + words_at(s, b)
        }
    }
}

pub open spec fn words(s: Seq<char>) -> Seq<Seq<char>> {
    words_at(s, 0)
}

pub fn split_words(s: &str) -> (r: Vec<String>)
    ensures
        texts(r@) == words(s@),
{
    let v = chars_of(s);
    let mut out: Vec<String> = Vec::new();
    let mut from: usize = 0;
    loop
        invariant
            v@ == s@,
            from <= v.len(),
            texts(out@) + words_at(s@, from as int) == words(s@),
        decreases v.len() - from,
    {
        let a = find_run_end(&v, false, from);
        if a == v.len() {
            assert(texts(out@) =~= words(s@));
            return out;
        }
        let b = find_run_end(&v, true, a);
        let ghost before = out@;
        out.push(piece(&v, a, b));
        assert(texts(out@) + words_at(s@, b as int) =~= texts(before) + words_at(s@, from as int));
        from = b;
    }
}

/// The end of `s[..end]` without the white space it ends in.
pub open spec fn trim_end_at(s: Seq<char>, end: int) -> int
    decreases end,
{
    if end <= 0 || end > s.len() || !white(s[end - 1]) {
        end
    } else {
        trim_end_at(s, end - 1)
    }
}

/// `s` without the white space at its two ends.
pub open spec fn trim(s: Seq<char>) -> Seq<char> {
    let a = run_end(s, false, 0);
    if a >= s.len() {
        Seq::empty()
    } else {
        s.subrange(a, trim_end_at(s, s.len() as int))
    }
}

pub fn trimmed(s: &str) -> (r: String)
    ensures
        r@ == trim(s@),
{
    let v = chars_of(s);
    let a = find_run_end(&v, false, 0);
    if a == v.len() {
        return String::new();
    }
    let mut end: usize = v.len();
    while end > 0 && is_white(v[end - 1])
        invariant
            a < end <= v.len(),
            !white(v@[a as int]),
            trim_end_at(v@, v@.len() as int) == trim_end_at(v@, end as int),
        decreases end,
    {
        end -= 1;
    }
    piece(&v, a, end)
}

/// The two sides of the first `p` in `s`.
pub open spec fn halves(s: Seq<char>, p: Seq<char>) -> Option<(Seq<char>, Seq<char>)> {
    match find(s, p, 0) {
        Some(k) => Some((s.take(k), s.skip(k + p.len()))),
        None => None,
    }
}

/// The two sides of the last `p` in `s`.
pub open spec fn last_halves(s: Seq<char>, p: Seq<char>) -> Option<(Seq<char>, Seq<char>)> {
    match rfind(s, p, s.len() as int) {
        Some(k) => Some((s.take(k), s.skip(k + p.len()))),
        None => None,
    }
}

pub open spec fn opt_pair(o: Option<(String, String)>) -> Option<(Seq<char>, Seq<char>)> {
    match o {
        Some(pair) => Some((pair.0@, pair.1@)),
        None => None,
    }
}

pub fn cut_at(s: &str, p: &str) -> (r: Option<(String, String)>)
    ensures
        opt_pair(r) == halves(s@, p@),
{
    let v = chars_of(s);
    let q = chars_of(p);
    match find_text(&v, &q, 0) {
        Some(k) => {
            let a = piece(&v, 0, k);
            let b = piece(&v, k + q.len(), v.len());
            assert(a@ =~= s@.take(k as int));
            assert(b@ =~= s@.skip(k + p@.len()));
            Some((a, b))
        },
        None => None,
    }
}

pub fn cut_at_last(s: &str, p: &str) -> (r: Option<(String, String)>)
    requires
        p@.len() > 0,
    ensures
        opt_pair(r) == last_halves(s@, p@),
{
    let v = chars_of(s);
    let q = chars_of(p);
    match rfind_text(&v, &q) {
        Some(k) => {
            let a = piece(&v, 0, k);
            let b = piece(&v, k + q.len(), v.len());
            assert(a@ =~= s@.take(k as int));
            assert(b@ =~= s@.skip(k + p@.len()));
            Some((a, b))
        },
        None => None,
    }
}

// ------------------------------------------------------------------- joining

/// The parts with `sep` between them.
pub open spec fn join(parts: Seq<Seq<char>>, sep: Seq<char>) -> Seq<char>
    decreases parts.len(),
{
    if parts.len() == 0 {
        Seq::empty()
    } else if parts.len() == 1 {
        parts[0]
    } else {
        join(parts.drop_last(), sep) + sep + parts.last()
    }
}

pub fn join_texts(parts: &Vec<String>, sep: &str) -> (r: String)
    ensures
        r@ == join(texts(parts@), sep@),
{
    let mut out = String::new();
    let mut i: usize = 0;
    while i < parts.len()
        invariant
            i <= parts.len(),
            out@ == join(texts(parts@).take(i as int), sep@),
        decreases parts.len() - i,
    {
        proof {
            let next = texts(parts@).take(i + 1);
            assert(next.drop_last() =~= texts(parts@).take(i as int));
            assert(next.last() == parts@[i as int]@);
        }
        if i > 0 {
            out.append(sep);
        }
        out.append(parts[i].as_str());
        i += 1;
        assert(out@ =~= join(texts(parts@).take(i as int), sep@));
    }
    assert(texts(parts@).take(parts@.len() as int) =~= texts(parts@));
    out
}

/// `a` followed by `b`.
pub fn concat2(a: &str, b: &str) -> (r: String)
    ensures
        r@ == a@ + b@,
{
    let mut out = a.to_owned();
    out.append(b);
    out
}

pub fn concat3(a: &str, b: &str, c: &str) -> (r: String)
    ensures
        r@ == a@ + b@ + c@,
{
    let mut out = concat2(a, b);
    out.append(c);
    out
}

pub fn concat4(a: &str, b: &str, c: &str, d: &str) -> (r: String)
    ensures
        r@ == a@ + b@ + c@ + d@,
{
    let mut out = concat3(a, b, c);
    out.append(d);
    out
}

pub fn concat5(a: &str, b: &str, c: &str, d: &str, e: &str) -> (r: String)
    ensures
        r@ == a@ + b@ + c@ + d@ + e@,
{
    let mut out = concat4(a, b, c, d);
    out.append(e);
    out
}

/// The list of these texts.
pub fn list1(a: &str) -> (r: Vec<String>)
    ensures
        texts(r@) == seq![a@],
{
    let r = vec![a.to_owned()];
    assert(texts(r@) =~= seq![a@]);
    r
}

pub fn list2(a: &str, b: &str) -> (r: Vec<String>)
    ensures
        texts(r@) == seq![a@, b@],
{
    let r = vec![a.to_owned(), b.to_owned()];
    assert(texts(r@) =~= seq![a@, b@]);
    r
}

pub fn list3(a: &str, b: &str, c: &str) -> (r: Vec<String>)
    ensures
        texts(r@) == seq![a@, b@, c@],
{
    let r = vec![a.to_owned(), b.to_owned(), c.to_owned()];
    assert(texts(r@) =~= seq![a@, b@, c@]);
    r
}

pub fn list4(a: &str, b: &str, c: &str, d: &str) -> (r: Vec<String>)
    ensures
        texts(r@) == seq![a@, b@, c@, d@],
{
    let r = vec![a.to_owned(), b.to_owned(), c.to_owned(), d.to_owned()];
    assert(texts(r@) =~= seq![a@, b@, c@, d@]);
    r
}

pub fn list5(a: &str, b: &str, c: &str, d: &str, e: &str) -> (r: Vec<String>)
    ensures
        texts(r@) == seq![a@, b@, c@, d@, e@],
{
    let r = vec![a.to_owned(), b.to_owned(), c.to_owned(), d.to_owned(), e.to_owned()];
    assert(texts(r@) =~= seq![a@, b@, c@, d@, e@]);
    r
}

// ------------------------------------------------------------------- numbers

pub open spec fn digit(c: char) -> bool {
    '0' <= c <= '9'
}

pub fn is_digit(c: char) -> (r: bool)
    ensures
        r == digit(c),
{
    '0' <= c && c <= '9'
}

/// Where the digits of `s` from `from` on end.
pub open spec fn digits_end(s: Seq<char>, from: int) -> int
    decreases s.len() - from,
{
    if from < 0 || from >= s.len() || !digit(s[from]) {
        from
    } else {
        digits_end(s, from + 1)
    }
}

pub proof fn lemma_digits_end(s: Seq<char>, from: int)
    requires
        0 <= from <= s.len(),
    ensures
        from <= digits_end(s, from) <= s.len(),
        forall|j: int| from <= j < digits_end(s, from) ==> digit(s[j]),
        digits_end(s, from) < s.len() ==> !digit(s[digits_end(s, from)]),
    decreases s.len() - from,
{
    if from < s.len() && digit(s[from]) {
        lemma_digits_end(s, from + 1);
    }
}

pub proof fn lemma_digits_end_is(s: Seq<char>, from: int, k: int)
    requires
        0 <= from <= k <= s.len(),
        forall|j: int| from <= j < k ==> digit(s[j]),
        k < s.len() ==> !digit(s[k]),
    ensures
        digits_end(s, from) == k,
    decreases k - from,
{
    if from < k {
        lemma_digits_end_is(s, from + 1, k);
    }
}

pub fn find_digits_end(v: &Vec<char>, from: usize) -> (r: usize)
    requires
        from <= v.len(),
    ensures
        r == digits_end(v@, from as int),
        from <= r <= v.len(),
        forall|k: int| from <= k < r ==> digit(v@[k]),
{
    let mut i: usize = from;
    while i < v.len() && is_digit(v[i])
        invariant
            from <= i <= v.len(),
            digits_end(v@, from as int) == digits_end(v@, i as int),
            forall|k: int| from <= k < i ==> digit(v@[k]),
        decreases v.len() - i,
    {
        i += 1;
    }
    i
}

/// The value of a run of decimal digits.
pub open spec fn value(s: Seq<char>) -> nat
    decreases s.len(),
{
    if s.len() == 0 {
        0
    } else {
        value(s.drop_last()) * 10 + (s.last() as u32 - '0' as u32) as nat
    }
}

pub open spec fn all_digits(s: Seq<char>) -> bool {
    forall|i: int| 0 <= i < s.len() ==> digit(#[trigger] s[i])
}

/// `n` in decimal, without leading zeros.
pub open spec fn decimal(n: nat) -> Seq<char>
    decreases n,
{
    if n < 10 {
        seq![(48 + n) as char]
    } else {
        decimal(n / 10).push((48 + n % 10) as char)
    }
}

fn digit_char(d: u64) -> (r: char)
    requires
        d < 10,
    ensures
        r == (48 + d) as char,
        digit(r),
        r as u32 - '0' as u32 == d,
{
    let b: u8 = 48 + d as u8;
    b as char
}

pub fn decimal_text(n: u64) -> (r: String)
    ensures
        r@ == decimal(n as nat),
    decreases n,
{
    let mut out = if n < 10 {
        String::new()
    } else {
        decimal_text(n / 10)
    };
    out.push(digit_char(n % 10));
    assert(out@ =~= decimal(n as nat));
    out
}

/// Writing a number and reading it back gives the number.
pub proof fn lemma_decimal(n: nat)
    ensures
        all_digits(decimal(n)),
        value(decimal(n)) == n,
        decimal(n).len() > 0,
        n > 0 ==> decimal(n)[0] != '0',
    decreases n,
{
    let d = n % 10;
    assert(((48 + d) as char) as u32 == 48 + d);
    if n >= 10 {
        lemma_decimal(n / 10);
        assert(decimal(n).drop_last() =~= decimal(n / 10));
        assert(decimal(n)[0] == decimal(n / 10)[0]);
    } else {
        assert(decimal(n).drop_last() =~= Seq::empty());
        reveal_with_fuel(value, 2);
    }
}

/// `s` without the plus sign it may start with.
pub open spec fn unsigned(s: Seq<char>) -> Seq<char> {
    if s.len() > 0 && s[0] == '+' {
        s.skip(1)
    } else {
        s
    }
}

/// The number that `s` spells: an optional plus sign, then decimal digits,
/// no more than `max` in value.
pub open spec fn number(s: Seq<char>, max: nat) -> Option<nat> {
    let d = unsigned(s);
    if d.len() > 0 && all_digits(d) && value(d) <= max {
        Some(value(d))
    } else {
        None
    }
}

pub proof fn lemma_value_grows(s: Seq<char>, k: int)
    requires
        all_digits(s),
        0 <= k <= s.len(),
    ensures
        value(s.take(k)) <= value(s),
    decreases s.len() - k,
{
    if k < s.len() {
        lemma_value_grows(s, k + 1);
        assert(s.take(k + 1).drop_last() =~= s.take(k));
        assert(digit(s[k]));
    } else {
        assert(s.take(k) =~= s);
    }
}

pub fn parse_number(s: &str, max: u64) -> (r: Option<u64>)
    ensures
        match r {
            Some(n) => number(s@, max as nat) == Some(n as nat),
            None => number(s@, max as nat) is None,
        },
{
    let v = chars_of(s);
    let from: usize = if v.len() > 0 && v[0] == '+' {
        1
    } else {
        0
    };
    let ghost d = unsigned(s@);
    assert(d =~= v@.skip(from as int));
    if from == v.len() {
        return None;
    }
    let mut n: u64 = 0;
    let mut i: usize = from;
    while i < v.len()
        invariant
            from <= i <= v.len(),
            d == v@.skip(from as int),
            d == unsigned(s@),
            n <= max,
            n == value(d.take(i - from)),
            forall|k: int| 0 <= k < i - from ==> digit(#[trigger] d[k]),
        decreases v.len() - i,
    {
        let c = v[i];
        assert(d[i - from] == c);
        if !is_digit(c) {
            return None;
        }
        let x: u64 = c as u64 - '0' as u64;
        assert(d.take(i - from + 1).drop_last() =~= d.take(i - from));
        let ghost more = value(d.take(i - from + 1));
        assert(more == n * 10 + x);
        let fits = match n.checked_mul(10) {
            Some(m) => m.checked_add(x),
            None => None,
        };
        match fits {
            Some(m) if m <= max => {
                n = m;
            },
            _ => {
                proof {
                    if all_digits(d) {
                        lemma_value_grows(d, i - from + 1);
                    }
                }
                return None;
            },
        }
        i += 1;
    }
    assert(d.take(v.len() - from) =~= d);
    Some(n)
}

/// The positions of `v[from..to]`, read as a number.
pub fn parse_piece(v: &Vec<char>, from: usize, to: usize) -> (r: Option<u64>)
    requires
        from <= to <= v.len(),
    ensures
        match r {
            Some(n) => number(v@.subrange(from as int, to as int), u64::MAX as nat) == Some(
                n as nat,
            ),
            None => number(v@.subrange(from as int, to as int), u64::MAX as nat) is None,
        },
{
    let s = piece(v, from, to);
    parse_number(s.as_str(), u64::MAX)
}

/// Reading back the decimal text of a number that fits gives the number.
pub proof fn lemma_number_of_decimal(n: nat, max: nat)
    requires
        n <= max,
    ensures
        number(decimal(n), max) == Some(n),
{
    lemma_decimal(n);
    assert(digit(decimal(n)[0]));
    assert(unsigned(decimal(n)) == decimal(n));
}

// ----------------------------------------------------------------------- case

/// The text that `str::to_lowercase` makes of a text.
pub uninterp spec fn lowercase(s: Seq<char>) -> Seq<char>;

/// `str::to_lowercase`. Claims only that the result depends on the text
/// alone.
pub assume_specification[ str::to_lowercase ](s: &str) -> (r: String)
    ensures
        r@ == lowercase(s@),
;

/// The characters that `char::to_lowercase` makes of a character.
pub uninterp spec fn lowercase_char(c: char) -> Seq<char>;

/// `char::to_lowercase`, its characters as a string. Claims only that they
/// depend on the character alone.
#[verifier::external_body]
pub(crate) fn lower_char(c: char) -> (r: String)
    ensures
        r@ == lowercase_char(c),
{
    c.to_lowercase().to_string()
}

/// The lower case of an ASCII letter; any other character itself.
pub open spec fn ascii_lower(c: char) -> char {
    if 'A' <= c <= 'Z' {
        (c as u32 + 32) as char
    } else {
        c
    }
}

pub open spec fn ascii_lowers(s: Seq<char>) -> Seq<char> {
    Seq::new(s.len(), |i: int| ascii_lower(s[i]))
}

/// Whether two texts agree but for the case of ASCII letters.
pub open spec fn same_but_case(a: Seq<char>, b: Seq<char>) -> bool {
    ascii_lowers(a) == ascii_lowers(b)
}

fn lower_ascii(c: char) -> (r: char)
    ensures
        r == ascii_lower(c),
{
    if 'A' <= c && c <= 'Z' {
        let b: u8 = c as u8 + 32;
        b as char
    } else {
        c
    }
}

pub fn equal_but_case(a: &str, b: &str) -> (r: bool)
    ensures
        r == same_but_case(a@, b@),
{
    let v = chars_of(a);
    let w = chars_of(b);
    if v.len() != w.len() {
        assert(ascii_lowers(a@).len() != ascii_lowers(b@).len());
        return false;
    }
    let mut i: usize = 0;
    while i < v.len()
        invariant
            i <= v.len() == w.len(),
            v@ == a@,
            w@ == b@,
            forall|k: int| 0 <= k < i ==> ascii_lower(#[trigger] v@[k]) == ascii_lower(w@[k]),
        decreases v.len() - i,
    {
        if lower_ascii(v[i]) != lower_ascii(w[i]) {
            assert(ascii_lowers(a@)[i as int] != ascii_lowers(b@)[i as int]);
            return false;
        }
        i += 1;
    }
    assert(ascii_lowers(a@) =~= ascii_lowers(b@));
    true
}

// ------------------------------------------------------------- lines and joins

proof fn lemma_position_shifts(a: Seq<char>, b: Seq<char>, c: char, k: int)
    requires
        0 <= k <= b.len(),
    ensures
        position(a + b, c, a.len() + k) == a.len() + position(b, c, k),
    decreases b.len() - k,
{
    if k < b.len() && b[k] != c {
        lemma_position_shifts(a, b, c, k + 1);
        assert((a + b)[a.len() + k] == b[k]);
    } else if k < b.len() {
        assert((a + b)[a.len() + k] == b[k]);
    }
}

proof fn lemma_lines_shift(a: Seq<char>, b: Seq<char>, k: int)
    requires
        0 <= k <= b.len(),
    ensures
        lines_at(a + b, a.len() + k) == lines_at(b, k),
    decreases b.len() - k,
{
    let s = a + b;
    if k < b.len() {
        lemma_position_shifts(a, b, '\n', k);
        lemma_position(b, '\n', k);
        let e = position(b, '\n', k);
        if e < b.len() {
            lemma_lines_shift(a, b, e + 1);
            assert(s.subrange(a.len() + k, a.len() + e) =~= b.subrange(k, e));
        } else {
            assert(s.subrange(a.len() + k, s.len() as int) =~= b.subrange(k, b.len() as int));
        }
    }
}

proof fn lemma_lines_of_both_at(a: Seq<char>, b: Seq<char>, from: int)
    requires
        0 <= from <= a.len(),
        a.len() == 0 || a.last() == '\n',
    ensures
        lines_at(a + b, from) == lines_at(a, from) + lines_at(b, 0),
    decreases a.len() - from,
{
    let s = a + b;
    if from == a.len() {
        lemma_lines_shift(a, b, 0);
        assert(lines_at(a, from) + lines_at(b, 0) =~= lines_at(b, 0));
    } else {
        lemma_position(a, '\n', from);
        let e = position(a, '\n', from);
        assert(e < a.len()) by {
            if e == a.len() {
                assert(a[a.len() - 1] != '\n');
            }
        }
        assert forall|j: int| from <= j < e implies s[j] != '\n' by {
            assert(s[j] == a[j]);
        }
        assert(s[e] == a[e]);
        lemma_position_is(s, '\n', from, e);
        lemma_lines_of_both_at(a, b, e + 1);
        assert(s.subrange(from, e) =~= a.subrange(from, e));
        assert(seq![chop_cr(a.subrange(from, e))] + (lines_at(a, e + 1) + lines_at(b, 0)) =~= (seq![
            chop_cr(a.subrange(from, e)),
        ] + lines_at(a, e + 1)) + lines_at(b, 0));
    }
}

/// Whole lines stay what they are when more text follows.
pub proof fn lemma_lines_of_both(a: Seq<char>, b: Seq<char>)
    requires
        a.len() == 0 || a.last() == '\n',
    ensures
        lines(a + b) == lines(a) + lines(b),
{
    lemma_lines_of_both_at(a, b, 0);
}

proof fn lemma_lines_ended_at(s: Seq<char>, from: int)
    requires
        0 <= from < s.len(),
        s.last() != '\n',
    ensures
        lines_at(s, from).len() > 0,
        lines_at(s + "\n"@, from) == lines_at(s, from).drop_last().push(
            chop_cr(lines_at(s, from).last()),
        ),
    decreases s.len() - from,
{
    reveal_strlit("\n");
    let t = s + "\n"@;
    lemma_position(s, '\n', from);
    let k = position(s, '\n', from);
    assert forall|j: int| from <= j < k implies t[j] != '\n' by {
        assert(t[j] == s[j]);
    }
    lemma_position_is(t, '\n', from, k);
    assert(t.subrange(from, k) =~= s.subrange(from, k));
    if k < s.len() {
        assert(k + 1 < s.len());
        lemma_lines_ended_at(s, k + 1);
        let head = seq![chop_cr(s.subrange(from, k))];
        let tail = lines_at(s, k + 1);
        assert(lines_at(s, from) == head + tail);
        assert((head + tail).drop_last().push(chop_cr((head + tail).last())) =~= head
            + tail.drop_last().push(chop_cr(tail.last())));
    } else {
        let last = s.subrange(from, k);
        assert(lines_at(t, k + 1) =~= Seq::empty());
        assert(lines_at(t, from) =~= seq![chop_cr(last)]);
        assert(lines_at(s, from) =~= seq![last]);
        assert(seq![last].drop_last().push(chop_cr(last)) =~= seq![chop_cr(last)]);
    }
}

/// A line feed at the end of an unfinished line only takes a carriage return
/// from it.
pub proof fn lemma_lines_ended(s: Seq<char>)
    requires
        s.len() > 0,
        s.last() != '\n',
    ensures
        lines(s).len() > 0,
        lines(s + "\n"@) == lines(s).drop_last().push(chop_cr(lines(s).last())),
{
    lemma_lines_ended_at(s, 0);
}

/// A text without a line feed, and one behind it, is one line.
pub proof fn lemma_one_line(p: Seq<char>)
    requires
        !p.contains('\n'),
    ensures
        lines(p + "\n"@) == seq![chop_cr(p)],
{
    reveal_strlit("\n");
    let s = p + "\n"@;
    assert forall|j: int| 0 <= j < p.len() implies s[j] != '\n' by {
        assert(s[j] == p[j]);
    }
    lemma_position_is(s, '\n', 0, p.len() as int);
    assert(s.subrange(0, p.len() as int) =~= p);
    assert(lines_at(s, p.len() as int + 1) =~= Seq::empty());
    assert(lines(s) =~= seq![chop_cr(p)]);
}

/// A line holds no line feed.
pub proof fn lemma_lines_hold_no_feed(s: Seq<char>, from: int, i: int)
    requires
        0 <= from,
        0 <= i < lines_at(s, from).len(),
    ensures
        !lines_at(s, from)[i].contains('\n'),
    decreases s.len() - from,
{
    lemma_position(s, '\n', from);
    let k = position(s, '\n', from);
    if k < s.len() {
        if i > 0 {
            lemma_lines_hold_no_feed(s, k + 1, i - 1);
        }
    }
}

/// The parts as lines, each with a line feed.
pub open spec fn unlined(parts: Seq<Seq<char>>) -> Seq<char> {
    if parts.len() == 0 {
        Seq::empty()
    } else {
        join(parts, "\n"@) + "\n"@
    }
}

/// Lines that are put together are read back, but for a carriage return at
/// their end.
pub proof fn lemma_lines_of_unlined(parts: Seq<Seq<char>>)
    requires
        forall|i: int| 0 <= i < parts.len() ==> !(#[trigger] parts[i]).contains('\n'),
    ensures
        lines(unlined(parts)) == Seq::new(parts.len(), |i: int| chop_cr(parts[i])),
    decreases parts.len(),
{
    reveal_strlit("\n");
    let want = Seq::new(parts.len(), |i: int| chop_cr(parts[i]));
    if parts.len() == 0 {
        assert(lines(unlined(parts)) =~= want);
    } else {
        let rest = parts.drop_last();
        let last = parts.last();
        assert forall|i: int| 0 <= i < rest.len() implies !(#[trigger] rest[i]).contains('\n') by {
            assert(rest[i] == parts[i]);
        }
        assert(!parts[parts.len() - 1].contains('\n'));
        lemma_lines_of_unlined(rest);
        lemma_one_line(last);
        lemma_lines_of_both(unlined(rest), last + "\n"@);
        assert(unlined(parts) =~= unlined(rest) + (last + "\n"@));
        assert(lines(unlined(parts)) =~= want);
    }
}

proof fn lemma_trim_end_of_prefix(s: Seq<char>, end: int)
    requires
        0 <= end < s.len(),
    ensures
        trim_end_at(s, end) == trim_end_at(s.drop_last(), end),
    decreases end,
{
    if end > 0 && white(s[end - 1]) {
        lemma_trim_end_of_prefix(s, end - 1);
    }
}

proof fn lemma_run_end_of_prefix(s: Seq<char>, from: int)
    requires
        0 <= from < s.len(),
        white(s.last()),
    ensures
        run_end(s.drop_last(), false, from) == s.len() - 1 <==> run_end(s, false, from) >= s.len(),
        run_end(s.drop_last(), false, from) < s.len() - 1 ==> run_end(s, false, from) == run_end(
            s.drop_last(),
            false,
            from,
        ),
    decreases s.len() - from,
{
    lemma_run_end(s.drop_last(), false, from);
    assert(run_end(s, false, s.len() as int) == s.len());
    if from < s.len() - 1 && white(s[from]) {
        lemma_run_end_of_prefix(s, from + 1);
    }
}

/// White space at the end makes no difference to the trimmed text.
pub proof fn lemma_trim_drops_white(s: Seq<char>)
    requires
        s.len() > 0,
        white(s.last()),
    ensures
        trim(s.drop_last()) == trim(s),
{
    let t = s.drop_last();
    lemma_run_end_of_prefix(s, 0);
    lemma_run_end(t, false, 0);
    lemma_trim_end_of_prefix(s, s.len() - 1);
    assert(trim_end_at(s, s.len() as int) == trim_end_at(s, s.len() - 1));
    let a = run_end(t, false, 0);
    if a < t.len() {
        let e = trim_end_at(t, t.len() as int);
        lemma_trim_end_bounds(t, t.len() as int, a);
        assert(t.subrange(a, e) =~= s.subrange(a, e));
    }
}

proof fn lemma_trim_end_bounds(s: Seq<char>, end: int, a: int)
    requires
        0 <= a < end <= s.len(),
        !white(s[a]),
    ensures
        a < trim_end_at(s, end) <= end,
    decreases end,
{
    if white(s[end - 1]) {
        lemma_trim_end_bounds(s, end - 1, a);
    }
}

/// Nor does a carriage return.
pub proof fn lemma_trim_chop(s: Seq<char>)
    ensures
        trim(chop_cr(s)) == trim(s),
{
    if s.len() > 0 && s.last() == '\r' {
        lemma_trim_drops_white(s);
    }
}

/// The text that `String::from_utf8_lossy` makes of bytes.
pub uninterp spec fn lossy_text(bytes: Seq<u8>) -> Seq<char>;

/// `String::from_utf8_lossy`, as an owned string. Claims that the text
/// depends on the bytes alone, and that bytes which are UTF-8 keep their
/// text.
#[verifier::external_body]
fn from_utf8_lossy(bytes: &Vec<u8>) -> (r: String)
    ensures
        r@ == lossy_text(bytes@),
        valid_utf8(bytes@) ==> encode_utf8(r@) == bytes@,
{
    String::from_utf8_lossy(bytes).into_owned()
}

/// The text in bytes: what they encode, and where they are not UTF-8 whatever
/// is made of them.
pub open spec fn text_in(bytes: Seq<u8>) -> Seq<char> {
    if valid_utf8(bytes) {
        decode_utf8(bytes)
    } else {
        lossy_text(bytes)
    }
}

pub fn read_text(bytes: &Vec<u8>) -> (r: String)
    ensures
        r@ == text_in(bytes@),
{
    let r = from_utf8_lossy(bytes);
    proof {
        if valid_utf8(bytes@) {
            encode_utf8_decode_utf8(r@);
        }
    }
    r
}

// ------------------------------------------------------------------------ laws

/// Whether a text neither begins nor ends in white space.
pub open spec fn bare(s: Seq<char>) -> bool {
    s.len() > 0 ==> !white(s[0]) && !white(s.last())
}

/// Whether a text is one word: something, and no white space in it.
pub open spec fn one_word(s: Seq<char>) -> bool {
    s.len() > 0 && forall|i: int| 0 <= i < s.len() ==> !white(#[trigger] s[i])
}

/// Trimming takes exactly the white space from the two ends.
pub proof fn law_trim_takes_the_ends(a: Seq<char>, s: Seq<char>, b: Seq<char>)
    requires
        forall|i: int| 0 <= i < a.len() ==> white(#[trigger] a[i]),
        forall|i: int| 0 <= i < b.len() ==> white(#[trigger] b[i]),
        bare(s),
    ensures
        trim(a + s + b) == s,
    decreases b.len(),
{
    let t = a + s + b;
    if b.len() > 0 {
        assert(b[b.len() - 1] == t.last());
        lemma_trim_drops_white(t);
        assert(t.drop_last() =~= a + s + b.drop_last());
        assert forall|i: int| 0 <= i < b.drop_last().len() implies white(
            #[trigger] b.drop_last()[i],
        ) by {
            assert(b.drop_last()[i] == b[i]);
        }
        law_trim_takes_the_ends(a, s, b.drop_last());
    } else {
        lemma_leading_white(t, 0, a.len() as int);
        if s.len() > 0 {
            assert(t.last() == s.last());
            assert(t[a.len() as int] == s[0]);
            assert(t.subrange(a.len() as int, t.len() as int) =~= s);
        }
    }
}

proof fn lemma_leading_white(s: Seq<char>, from: int, to: int)
    requires
        0 <= from <= to <= s.len(),
        forall|i: int| from <= i < to ==> white(#[trigger] s[i]),
        to < s.len() ==> !white(s[to]),
    ensures
        run_end(s, false, from) == to,
    decreases to - from,
{
    if from < to {
        lemma_leading_white(s, from + 1, to);
    }
}

/// A text without white space at its ends is trimmed already.
pub proof fn lemma_trim_of_bare(s: Seq<char>)
    requires
        bare(s),
    ensures
        trim(s) == s,
{
    law_trim_takes_the_ends(Seq::empty(), s, Seq::empty());
    assert(Seq::empty() + s + Seq::empty() =~= s);
}

/// A text is cut at the first separator.
pub proof fn law_halves_at_the_first(a: Seq<char>, c: char, b: Seq<char>)
    requires
        !a.contains(c),
    ensures
        halves(a + seq![c] + b, seq![c]) == Some((a, b)),
{
    let s = a + seq![c] + b;
    let n = a.len() as int;
    assert(s.subrange(n, n + 1) =~= seq![c]);
    assert forall|j: int| 0 <= j < n implies !at(s, seq![c], j) by {
        if at(s, seq![c], j) {
            assert(s.subrange(j, j + 1)[0] == c);
            assert(a[j] == c);
        }
    }
    lemma_find_is(s, seq![c], 0, n);
    assert(s.take(n) =~= a);
    assert(s.skip(n + 1) =~= b);
}

/// A text without the separator is not cut.
pub proof fn law_halves_need_a_separator(s: Seq<char>, c: char)
    requires
        !s.contains(c),
    ensures
        halves(s, seq![c]) is None,
{
    lemma_find(s, seq![c], 0);
    if let Some(k) = find(s, seq![c], 0) {
        assert(s.subrange(k, k + 1)[0] == c);
        assert(s[k] == c);
    }
}

/// Lines that are written one below the other are read back one by one.
pub proof fn law_lines_read_back(parts: Seq<Seq<char>>)
    requires
        forall|i: int|
            0 <= i < parts.len() ==> !(#[trigger] parts[i]).contains('\n') && !parts[i].contains(
                '\r',
            ),
    ensures
        lines(unlined(parts)) == parts,
{
    lemma_lines_of_unlined(parts);
    assert(lines(unlined(parts)) =~= parts) by {
        assert forall|i: int| 0 <= i < parts.len() implies chop_cr(parts[i]) == parts[i] by {
            let part = parts[i];
            if part.len() > 0 && part.last() == '\r' {
                assert(part[part.len() - 1] == '\r');
                assert(part.contains('\r'));
            }
        }
    }
}

proof fn lemma_run_end_shifts(a: Seq<char>, b: Seq<char>, w: bool, k: int)
    requires
        0 <= k <= b.len(),
    ensures
        run_end(a + b, w, a.len() + k) == a.len() + run_end(b, w, k),
    decreases b.len() - k,
{
    if k < b.len() {
        assert((a + b)[a.len() + k] == b[k]);
        if white(b[k]) != w {
            lemma_run_end_shifts(a, b, w, k + 1);
        }
    }
}

proof fn lemma_words_shift(a: Seq<char>, b: Seq<char>, k: int)
    requires
        0 <= k <= b.len(),
    ensures
        words_at(a + b, a.len() + k) == words_at(b, k),
    decreases b.len() - k,
{
    lemma_run_end_shifts(a, b, false, k);
    lemma_run_end(b, false, k);
    let i = run_end(b, false, k);
    if i < b.len() {
        lemma_run_end_shifts(a, b, true, i);
        lemma_run_end(b, true, i);
        let e = run_end(b, true, i);
        if e > i {
            lemma_words_shift(a, b, e);
            assert((a + b).subrange(a.len() + i, a.len() + e) =~= b.subrange(i, e));
        }
    }
}

proof fn lemma_words_of_both_at(a: Seq<char>, c: char, b: Seq<char>, from: int)
    requires
        white(c),
        0 <= from <= a.len(),
    ensures
        words_at(a.push(c) + b, from) == words_at(a, from) + words_at(b, 0),
    decreases a.len() - from,
{
    let s = a.push(c) + b;
    lemma_run_end(a, false, from);
    lemma_run_end(s, false, from);
    let i = run_end(a, false, from);
    if i < a.len() {
        assert forall|k: int| from <= k < i implies white(#[trigger] s[k]) by {
            assert(s[k] == a[k]);
        }
        assert(s[i] == a[i]);
        lemma_leading_white(s, from, i);
        lemma_run_end(a, true, i);
        let e = run_end(a, true, i);
        assert(s[e] == if e < a.len() { a[e] } else { c });
        assert forall|k: int| i <= k < e implies !white(#[trigger] s[k]) by {
            assert(s[k] == a[k]);
        }
        lemma_leading_dark(s, i, e);
        assert(e > i);
        lemma_words_of_both_at(a, c, b, e);
        assert(s.subrange(i, e) =~= a.subrange(i, e));
        assert(seq![a.subrange(i, e)] + (words_at(a, e) + words_at(b, 0)) =~= (seq![
            a.subrange(i, e),
        ] + words_at(a, e)) + words_at(b, 0));
    } else {
        let n = a.len() + 1;
        assert forall|k: int| from <= k < n implies white(#[trigger] s[k]) by {
            if k < a.len() {
                assert(s[k] == a[k]);
            }
        }
        lemma_run_end_skips(s, from, n as int);
        lemma_words_shift(a.push(c), b, 0);
        assert(words_at(s, from) == words_at(s, n as int));
        assert(words_at(a, from) + words_at(b, 0) =~= words_at(b, 0));
    }
}

proof fn lemma_leading_dark(s: Seq<char>, from: int, to: int)
    requires
        0 <= from <= to <= s.len(),
        forall|i: int| from <= i < to ==> !white(#[trigger] s[i]),
        to < s.len() ==> white(s[to]),
    ensures
        run_end(s, true, from) == to,
    decreases to - from,
{
    if from < to {
        lemma_leading_dark(s, from + 1, to);
    }
}

proof fn lemma_run_end_skips(s: Seq<char>, from: int, to: int)
    requires
        0 <= from <= to <= s.len(),
        forall|i: int| from <= i < to ==> white(#[trigger] s[i]),
    ensures
        run_end(s, false, from) == run_end(s, false, to),
    decreases to - from,
{
    if from < to {
        lemma_run_end_skips(s, from + 1, to);
    }
}

/// The words on both sides of white space are the words of the text.
pub proof fn law_words_of_both_sides(a: Seq<char>, c: char, b: Seq<char>)
    requires
        white(c),
    ensures
        words(a + seq![c] + b) == words(a) + words(b),
{
    assert(a + seq![c] + b =~= a.push(c) + b);
    lemma_words_of_both_at(a, c, b, 0);
}

/// A word is its own only word.
pub proof fn law_one_word_is_itself(s: Seq<char>)
    requires
        one_word(s),
    ensures
        words(s) == seq![s],
{
    assert(!white(s[0]));
    lemma_leading_white(s, 0, 0);
    lemma_leading_dark(s, 0, s.len() as int);
    assert(s.subrange(0, s.len() as int) =~= s);
    assert(words_at(s, s.len() as int) =~= Seq::empty());
    assert(words(s) =~= seq![s]);
}

/// Words with a space between them are read back one by one.
pub proof fn law_words_read_back(list: Seq<Seq<char>>)
    requires
        forall|i: int| 0 <= i < list.len() ==> one_word(#[trigger] list[i]),
    ensures
        words(join(list, " "@)) == list,
    decreases list.len(),
{
    reveal_strlit(" ");
    if list.len() == 0 {
        assert(words(join(list, " "@)) =~= list);
    } else {
        assert(one_word(list[list.len() - 1]));
        law_one_word_is_itself(list.last());
        let rest = list.drop_last();
        if list.len() == 1 {
            assert(list =~= seq![list[0]]);
        } else {
            assert forall|i: int| 0 <= i < rest.len() implies one_word(#[trigger] rest[i]) by {
                assert(rest[i] == list[i]);
            }
            law_words_read_back(rest);
            assert(" "@ =~= seq![' ']);
            law_words_of_both_sides(join(rest, " "@), ' ', list.last());
            assert(list =~= rest + seq![list.last()]);
        }
    }
}

/// What one text holds, a longer one holds.
pub proof fn lemma_contains_more(a: Seq<char>, b: Seq<char>, p: Seq<char>)
    ensures
        contains(a, p) ==> contains(a + b, p),
        contains(b, p) ==> contains(a + b, p),
{
    if contains(a, p) {
        let k = choose|k: int| at(a, p, k);
        assert((a + b).subrange(k, k + p.len()) =~= a.subrange(k, k + p.len()));
        assert(at(a + b, p, k));
    }
    if contains(b, p) {
        let k = choose|k: int| at(b, p, k);
        let j = a.len() + k;
        assert((a + b).subrange(j, j + p.len()) =~= b.subrange(k, k + p.len()));
        assert(at(a + b, p, j));
    }
}

/// What a text holds, it holds however it goes on.
pub proof fn lemma_contains_on(p: Seq<char>)
    ensures
        contains(p, p),
        forall|a: Seq<char>, b: Seq<char>|
            contains(a, p) ==> #[trigger] contains(a + b, p),
{
    assert forall|a: Seq<char>, b: Seq<char>| contains(a, p) implies #[trigger] contains(
        a + b,
        p,
    ) by {
        lemma_contains_more(a, b, p);
    }
    assert(p.subrange(0, p.len() as int) =~= p);
    assert(at(p, p, 0));
}

pub proof fn lemma_regroup(
    lead: Seq<char>,
    a: Seq<char>,
    b: Seq<char>,
    c: Seq<char>,
    d: Seq<char>,
    e: Seq<char>,
)
    ensures
        lead + a + b + c + d + e == lead + (a + b + c + d + e),
{
    assert(lead + a + b + c + d + e =~= lead + (a + b + c + d + e));
}

pub proof fn lemma_regroup_six(
    lead: Seq<char>,
    a: Seq<char>,
    b: Seq<char>,
    c: Seq<char>,
    d: Seq<char>,
    e: Seq<char>,
    f: Seq<char>,
)
    ensures
        lead + a + b + c == lead + (a + b + c),
        lead + a + b + c + d + e + f == lead + (a + b + c + d + e + f),
{
    assert(lead + a + b + c =~= lead + (a + b + c));
    assert(lead + a + b + c + d + e + f =~= lead + (a + b + c + d + e + f));
}

/// A text is cut at the last separator in it.
pub proof fn law_last_halves_at_the_last(a: Seq<char>, c: char, b: Seq<char>)
    requires
        !b.contains(c),
    ensures
        last_halves(a + seq![c] + b, seq![c]) == Some((a, b)),
{
    let s = a + seq![c] + b;
    let k = a.len() as int;
    assert(s.subrange(k, k + 1) =~= seq![c]);
    assert(at(s, seq![c], k));
    assert forall|j: int| k < j < s.len() implies !at(s, seq![c], j) by {
        assert(s[j] == b[j - k - 1]);
        assert(b.contains(b[j - k - 1]));
        if at(s, seq![c], j) {
            assert(s.subrange(j, j + 1)[0] == s[j]);
            assert(seq![c][0] == c);
        }
    }
    lemma_rfind_is(s, seq![c], s.len() as int, k);
    assert(s.take(k) =~= a);
    assert(s.skip(k + 1) =~= b);
}

proof fn lemma_fields_shift(a: Seq<char>, b: Seq<char>, c: char, k: int)
    requires
        0 <= k <= b.len(),
    ensures
        fields_at(a + b, c, a.len() + k) == fields_at(b, c, k),
    decreases b.len() - k,
{
    let s = a + b;
    let n = a.len() as int;
    lemma_position_shifts(a, b, c, k);
    lemma_position(b, c, k);
    let at = position(b, c, k);
    if at >= b.len() {
        assert(s.subrange(n + k, s.len() as int) =~= b.subrange(k, b.len() as int));
    } else {
        lemma_fields_shift(a, b, c, at + 1);
        assert(s.subrange(n + k, n + at) =~= b.subrange(k, at));
    }
}

/// A text is split at every separator: up to the first of them, and then what
/// follows it in the same way.
pub proof fn law_fields_are_split_at_separators(a: Seq<char>, c: char, b: Seq<char>)
    requires
        !a.contains(c),
    ensures
        fields(a, c) == seq![a],
        fields(a + seq![c] + b, c) == seq![a] + fields(b, c),
{
    assert forall|i: int| 0 <= i < a.len() implies a[i] != c by {
        assert(a.contains(a[i]));
    }
    lemma_position_is(a, c, 0, a.len() as int);
    assert(a.subrange(0, a.len() as int) =~= a);
    let s = a + seq![c] + b;
    let lead = a + seq![c];
    assert forall|i: int| 0 <= i < a.len() implies s[i] != c by {
        assert(s[i] == a[i]);
    }
    assert(s[a.len() as int] == c);
    lemma_position_is(s, c, 0, a.len() as int);
    lemma_fields_shift(lead, b, c, 0);
    assert(s =~= lead + b);
    assert(s.subrange(0, a.len() as int) =~= a);
}

} // verus!

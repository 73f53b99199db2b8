//! Unix paths as text. A path is read as the names between its slashes:
//! empty names do not count, nor does a `.` unless a relative path starts
//! with it. Two paths are the same when both start at the root or neither
//! does and their names agree.

use vstd::prelude::*;

use crate::text;
use crate::text::{chars_of, concat2, concat3, find_char, piece, same};

verus! {

broadcast use vstd::seq::group_seq_axioms;

/// Whether the path starts at the root.
pub open spec fn absolute(p: Seq<char>) -> bool {
    p.len() > 0 && p[0] == '/'
}

/// Whether the text between two slashes counts as a name.
pub open spec fn is_name(s: Seq<char>, from: int, to: int) -> bool {
    from < to && !(from > 0 && to == from + 1 && s[from] == '.')
}

/// Where the names of `s[from..]` start and end.
pub open spec fn spans_at(s: Seq<char>, from: int) -> Seq<(int, int)>
    decreases s.len() + 1 - from,
{
    if from < 0 || from >= s.len() {
        Seq::empty()
    } else {
        let k = text::position(s, '/', from);
        if k < from || k > s.len() {
            Seq::empty()
        } else if is_name(s, from, k) {
            seq![(from, k)] + spans_at(s, k + 1)
        } else {
            spans_at(s, k + 1)
        }
    }
}

pub open spec fn spans(s: Seq<char>) -> Seq<(int, int)> {
    spans_at(s, 0)
}

/// The names of a path.
pub open spec fn names(s: Seq<char>) -> Seq<Seq<char>> {
    Seq::new(spans(s).len(), |i: int| s.subrange(spans(s)[i].0, spans(s)[i].1))
}

/// The same place by name: both absolute or both relative, and equal names.
pub open spec fn same_path(a: Seq<char>, b: Seq<char>) -> bool {
    absolute(a) == absolute(b) && names(a) == names(b)
}

/// Whether `p` is `base` or lies below it, name by name.
pub open spec fn under(p: Seq<char>, base: Seq<char>) -> bool {
    &&& absolute(base) ==> absolute(p)
    &&& !absolute(base) && absolute(p) ==> names(base).len() == 0
    &&& names(base).len() <= names(p).len()
    &&& names(p).take(names(base).len() as int) == names(base)
}

/// What is left of `p` after its first `n` names, without the slashes before
/// and after it.
pub open spec fn after_names(p: Seq<char>, n: int) -> Seq<char> {
    if n < spans(p).len() {
        p.subrange(spans(p)[n].0, spans(p).last().1)
    } else {
        Seq::empty()
    }
}

/// The way from `base` to `p`, when `p` is `base` or lies below it.
pub open spec fn relative(p: Seq<char>, base: Seq<char>) -> Option<Seq<char>> {
    if under(p, base) {
        Some(after_names(p, names(base).len() as int))
    } else {
        None
    }
}

/// `rel` seen from `base`; an absolute `rel` stands for itself.
pub open spec fn joined(base: Seq<char>, rel: Seq<char>) -> Seq<char> {
    if absolute(rel) {
        rel
    } else if base.len() == 0 || base.last() == '/' {
        base + rel
    } else {
        base + "/"@ + rel
    }
}

/// The path without its last name.
pub open spec fn parent(p: Seq<char>) -> Option<Seq<char>> {
    let n = spans(p).len();
    if n == 0 {
        None
    } else if n == 1 {
        Some(
            if absolute(p) {
                "/"@
            } else {
                Seq::empty()
            },
        )
    } else {
        Some(p.subrange(0, spans(p)[n - 2].1))
    }
}

/// The last name, unless it is `.` or `..`.
pub open spec fn file_name(p: Seq<char>) -> Option<Seq<char>> {
    let n = names(p).len();
    if n == 0 || names(p)[n - 1] == "."@ || names(p)[n - 1] == ".."@ {
        None
    } else {
        Some(names(p)[n - 1])
    }
}

pub open spec fn span_views(v: Seq<(usize, usize)>) -> Seq<(int, int)> {
    Seq::new(v.len(), |i: int| (v[i].0 as int, v[i].1 as int))
}

pub proof fn lemma_spans_in_range(s: Seq<char>, from: int)
    requires
        0 <= from,
    ensures
        forall|i: int|
            0 <= i < spans_at(s, from).len() ==> from <= (#[trigger] spans_at(s, from)[i]).0
                < spans_at(s, from)[i].1 <= s.len(),
        forall|i: int, j: int|
            0 <= i < j < spans_at(s, from).len() ==> (#[trigger] spans_at(s, from)[i]).1 < (
            #[trigger] spans_at(s, from)[j]).0,
    decreases s.len() + 1 - from,
{
    if from < s.len() {
        text::lemma_position(s, '/', from);
        let k = text::position(s, '/', from);
        lemma_spans_in_range(s, k + 1);
        let rest = spans_at(s, k + 1);
        if is_name(s, from, k) {
            let all = spans_at(s, from);
            assert(all =~= seq![(from, k)] + rest);
            assert forall|i: int| 0 <= i < all.len() implies from <= (#[trigger] all[i]).0
                < all[i].1 <= s.len() by {
                if i > 0 {
                    assert(all[i] == rest[i - 1]);
                }
            }
            assert forall|i: int, j: int| 0 <= i < j < all.len() implies (#[trigger] all[i]).1 < (
            #[trigger] all[j]).0 by {
                assert(all[j] == rest[j - 1]);
                if i > 0 {
                    assert(all[i] == rest[i - 1]);
                }
            }
        }
    }
}

fn spans_of(v: &Vec<char>) -> (r: Vec<(usize, usize)>)
    ensures
        span_views(r@) == spans(v@),
        forall|i: int| 0 <= i < r.len() ==> (#[trigger] r@[i]).0 < r@[i].1 <= v.len(),
        forall|i: int| 0 <= i < r.len() ==> (#[trigger] r@[i]).0 < r@[r.len() - 1].1,
{
    let mut out: Vec<(usize, usize)> = Vec::new();
    let mut from: usize = 0;
    while from < v.len()
        invariant
            from <= v.len(),
            span_views(out@) + spans_at(v@, from as int) == spans(v@),
        decreases v.len() - from,
    {
        let k = find_char(v, '/', from);
        proof {
            text::lemma_position(v@, '/', from as int);
        }
        let ghost before = out@;
        if from < k && !(from > 0 && k == from + 1 && v[from] == '.') {
            out.push((from, k));
            assert(span_views(out@) =~= span_views(before).push((from as int, k as int)));
            assert(span_views(out@) + spans_at(v@, k + 1) =~= span_views(before) + spans_at(
                v@,
                from as int,
            ));
        }
        if k == v.len() {
            assert(spans_at(v@, k + 1) =~= Seq::empty());
            assert(spans_at(v@, k as int) =~= Seq::empty());
            from = k;
        } else {
            from = k + 1;
        }
    }
    assert(span_views(out@) =~= spans(v@));
    proof {
        lemma_spans_in_range(v@, 0);
        assert forall|i: int| 0 <= i < out.len() implies (#[trigger] out@[i]).0 < out@[i].1
            <= v.len() by {
            assert(span_views(out@)[i] == spans(v@)[i]);
        }
        assert forall|i: int| 0 <= i < out.len() implies (#[trigger] out@[i]).0 < out@[out.len()
            - 1].1 by {
            let last = out.len() - 1;
            assert(span_views(out@)[i] == spans(v@)[i]);
            assert(span_views(out@)[last] == spans(v@)[last]);
            if i < last {
                assert(spans(v@)[i].1 < spans(v@)[last].0);
            }
        }
    }
    out
}

/// A path read into its names.
pub struct Names {
    pub absolute: bool,
    pub names: Vec<String>,
}

pub fn names_of(p: &str) -> (r: Names)
    ensures
        r.absolute == absolute(p@),
        text::texts(r.names@) == names(p@),
{
    let v = chars_of(p);
    let at = spans_of(&v);
    let mut out: Vec<String> = Vec::new();
    let mut i: usize = 0;
    while i < at.len()
        invariant
            i <= at.len(),
            out.len() == i,
            v@ == p@,
            span_views(at@) == spans(v@),
            forall|k: int| 0 <= k < at.len() ==> (#[trigger] at@[k]).0 < at@[k].1 <= v.len(),
            forall|k: int| 0 <= k < i ==> (#[trigger] out@[k])@ == names(p@)[k],
        decreases at.len() - i,
    {
        assert(span_views(at@)[i as int] == spans(v@)[i as int]);
        out.push(piece(&v, at[i].0, at[i].1));
        i += 1;
    }
    assert(span_views(at@).len() == at.len());
    assert(text::texts(out@) =~= names(p@));
    Names { absolute: v.len() > 0 && v[0] == '/', names: out }
}

pub fn is_same_path(a: &str, b: &str) -> (r: bool)
    ensures
        r == same_path(a@, b@),
{
    let x = names_of(a);
    let y = names_of(b);
    x.absolute == y.absolute && text::same_list(&x.names, &y.names)
}

pub fn is_under(p: &str, base: &str) -> (r: bool)
    ensures
        r == under(p@, base@),
{
    let x = names_of(p);
    let y = names_of(base);
    let ghost xs = text::texts(x.names@);
    let ghost ys = text::texts(y.names@);
    if y.absolute && !x.absolute {
        return false;
    }
    if !y.absolute && x.absolute && y.names.len() > 0 {
        assert(ys.len() > 0);
        return false;
    }
    if y.names.len() > x.names.len() {
        assert(ys.len() > xs.len());
        return false;
    }
    let mut i: usize = 0;
    while i < y.names.len()
        invariant
            i <= y.names.len() <= x.names.len(),
            xs == text::texts(x.names@),
            ys == text::texts(y.names@),
            xs == names(p@),
            ys == names(base@),
            forall|k: int| 0 <= k < i ==> #[trigger] xs[k] == ys[k],
        decreases y.names.len() - i,
    {
        if x.names[i] != y.names[i] {
            assert(xs[i as int] != ys[i as int]);
            assert(xs.take(ys.len() as int)[i as int] == xs[i as int]);
            return false;
        }
        i += 1;
    }
    assert(xs.take(ys.len() as int) =~= ys);
    true
}

pub fn relative_to(p: &str, base: &str) -> (r: Option<String>)
    ensures
        text::opt_text(r) == relative(p@, base@),
{
    if !is_under(p, base) {
        return None;
    }
    let v = chars_of(p);
    let at = spans_of(&v);
    let below = names_of(base);
    let n: usize = below.names.len();
    assert(text::texts(below.names@).len() == n);
    assert(span_views(at@).len() == at.len());
    if n < at.len() {
        assert(span_views(at@)[n as int] == spans(v@)[n as int]);
        assert(span_views(at@)[at.len() - 1] == spans(v@)[at.len() - 1]);
        Some(piece(&v, at[n].0, at[at.len() - 1].1))
    } else {
        Some(String::new())
    }
}

pub fn join(base: &str, rel: &str) -> (r: String)
    ensures
        r@ == joined(base@, rel@),
{
    let b = chars_of(base);
    let q = chars_of(rel);
    if q.len() > 0 && q[0] == '/' {
        rel.to_owned()
    } else if b.len() == 0 || b[b.len() - 1] == '/' {
        concat2(base, rel)
    } else {
        concat3(base, "/", rel)
    }
}

pub fn parent_of(p: &str) -> (r: Option<String>)
    ensures
        text::opt_text(r) == parent(p@),
{
    let v = chars_of(p);
    let at = spans_of(&v);
    let n: usize = at.len();
    assert(span_views(at@).len() == n);
    if n == 0 {
        None
    } else if n == 1 {
        if v[0] == '/' {
            Some("/".to_owned())
        } else {
            Some(String::new())
        }
    } else {
        assert(span_views(at@)[n - 2] == spans(v@)[n - 2]);
        Some(piece(&v, 0, at[n - 2].1))
    }
}

pub fn file_name_of(p: &str) -> (r: Option<String>)
    ensures
        text::opt_text(r) == file_name(p@),
{
    let mut list = names_of(p).names;
    let ghost ns = text::texts(list@);
    match list.pop() {
        Some(last) => {
            assert(ns.last() == last@);
            if same(last.as_str(), ".") || same(last.as_str(), "..") {
                None
            } else {
                Some(last)
            }
        },
        None => None,
    }
}

/// What follows the last point of a file name that does not start with it.
pub open spec fn extension(name: Seq<char>) -> Option<Seq<char>> {
    match text::last_halves(name, "."@) {
        Some((stem, ext)) if stem.len() > 0 && name != ".."@ => Some(ext),
        _ => None,
    }
}

/// A file name without its extension.
pub open spec fn stem(name: Seq<char>) -> Seq<char> {
    match text::last_halves(name, "."@) {
        Some((stem, _)) if stem.len() > 0 && name != ".."@ => stem,
        _ => name,
    }
}

pub fn extension_of(name: &str) -> (r: Option<String>)
    ensures
        text::opt_text(r) == extension(name@),
{
    proof {
        reveal_strlit(".");
    }
    match text::cut_at_last(name, ".") {
        Some((stem, ext)) if !stem.as_str().is_empty() && !same(name, "..") => Some(ext),
        _ => None,
    }
}

pub fn stem_of(name: &str) -> (r: String)
    ensures
        r@ == stem(name@),
{
    proof {
        reveal_strlit(".");
    }
    match text::cut_at_last(name, ".") {
        Some((stem, _)) if !stem.as_str().is_empty() && !same(name, "..") => stem,
        _ => name.to_owned(),
    }
}

// ------------------------------------------------------------------------ laws


/// Whether this can be the name of something in a directory.
pub open spec fn entry_name(name: Seq<char>) -> bool {
    name.len() > 0 && !name.contains('/') && name != seq!['.'] && name != seq!['.', '.']
}

/// The path of `name` in the directory `dir`.
pub open spec fn child(dir: Seq<char>, name: Seq<char>) -> Seq<char> {
    dir + seq!['/'] + name
}

proof fn lemma_spans_of_child_at(dir: Seq<char>, name: Seq<char>, from: int)
    requires
        0 <= from <= dir.len(),
        entry_name(name),
    ensures
        spans_at(child(dir, name), from) == spans_at(dir, from).push(
            (dir.len() as int + 1, child(dir, name).len() as int),
        ),
    decreases dir.len() - from,
{
    let s = child(dir, name);
    let n = dir.len() as int;
    assert(s[n] == '/');
    assert(forall|j: int| 0 <= j < n ==> s[j] == dir[j]);
    if from < n {
        text::lemma_position(dir, '/', from);
        let k = text::position(dir, '/', from);
        text::lemma_position_is(s, '/', from, k);
        if k < n {
            lemma_spans_of_child_at(dir, name, k + 1);
        } else {
            lemma_spans_of_name(dir, name);
            assert(spans_at(dir, k + 1) =~= Seq::empty());
        }
        assert(spans_at(s, from) =~= spans_at(dir, from).push((n + 1, s.len() as int)));
    } else {
        text::lemma_position_is(s, '/', n, n);
        lemma_spans_of_name(dir, name);
        assert(spans_at(s, from) =~= spans_at(dir, from).push((n + 1, s.len() as int)));
    }
}

proof fn lemma_spans_of_name(dir: Seq<char>, name: Seq<char>)
    requires
        entry_name(name),
    ensures
        spans_at(child(dir, name), dir.len() as int + 1) == seq![
            (dir.len() as int + 1, child(dir, name).len() as int),
        ],
{
    let s = child(dir, name);
    let n = dir.len() as int + 1;
    assert forall|j: int| n <= j < s.len() implies s[j] != '/' by {
        assert(s[j] == name[j - n]);
        if s[j] == '/' {
            assert(name.contains('/'));
        }
    }
    text::lemma_position_is(s, '/', n, s.len() as int);
    assert(s[n] == name[0]);
    if name.len() == 1 && name[0] == '.' {
        assert(name =~= seq!['.']);
    }
    assert(spans_at(s, s.len() as int + 1) =~= Seq::empty());
    assert(spans_at(s, n) =~= seq![(n, s.len() as int)]);
}

/// What lies in a directory has the names of the directory and its own, and
/// is below the directory.
pub proof fn law_a_child_adds_its_name(dir: Seq<char>, name: Seq<char>)
    requires
        entry_name(name),
    ensures
        names(child(dir, name)) == names(dir).push(name),
        file_name(child(dir, name)) == Some(name),
        dir.len() > 0 ==> absolute(child(dir, name)) == absolute(dir) && under(
            child(dir, name),
            dir,
        ),
        dir.len() > 0 && dir.last() != '/' ==> joined(dir, name) == child(dir, name),
{
    let s = child(dir, name);
    let n = dir.len() as int;
    lemma_spans_of_child_at(dir, name, 0);
    lemma_spans_in_range(dir, 0);
    assert forall|i: int| 0 <= i < spans(dir).len() implies s.subrange(
        spans(dir)[i].0,
        spans(dir)[i].1,
    ) == dir.subrange(spans(dir)[i].0, spans(dir)[i].1) by {
        let span = spans(dir)[i];
        assert(s.subrange(span.0, span.1) =~= dir.subrange(span.0, span.1));
    }
    assert(s.subrange(n + 1, s.len() as int) =~= name);
    assert(names(s) =~= names(dir).push(name));
    reveal_strlit(".");
    reveal_strlit("..");
    assert("."@ =~= seq!['.']);
    assert(".."@ =~= seq!['.', '.']);
    if dir.len() > 0 {
        assert(s[0] == dir[0]);
        assert(names(s).take(names(dir).len() as int) =~= names(dir));
    }
    reveal_strlit("/");
    assert("/"@ =~= seq!['/']);
    if absolute(name) {
        assert(name.contains('/'));
    }
}

/// What lies in a directory has the directory for its parent.
pub proof fn law_the_parent_of_a_child(up: Seq<char>, last: Seq<char>, name: Seq<char>)
    requires
        entry_name(last),
        entry_name(name),
    ensures
        parent(child(child(up, last), name)) == Some(child(up, last)),
{
    let dir = child(up, last);
    let s = child(dir, name);
    lemma_spans_of_child_at(up, last, 0);
    lemma_spans_of_child_at(dir, name, 0);
    assert(s.subrange(0, dir.len() as int) =~= dir);
}

/// The path of `name` in the directory `dir`, which may end in a slash.
pub open spec fn below(dir: Seq<char>, name: Seq<char>) -> Seq<char> {
    if dir.last() == '/' {
        dir + name
    } else {
        dir + seq!['/'] + name
    }
}

/// Where the names lead to, one after another.
pub open spec fn down(dir: Seq<char>, way: Seq<Seq<char>>) -> Seq<char>
    decreases way.len(),
{
    if way.len() == 0 {
        dir
    } else {
        down(below(dir, way[0]), way.skip(1))
    }
}

/// The names of a directory, which may end in a slash.
pub open spec fn base(dir: Seq<char>) -> Seq<Seq<char>> {
    if dir.last() == '/' {
        names(dir.drop_last())
    } else {
        names(dir)
    }
}

pub proof fn lemma_below(dir: Seq<char>, name: Seq<char>)
    requires
        dir.len() > 0,
        entry_name(name),
    ensures
        joined(dir, name) == below(dir, name),
        file_name(below(dir, name)) == Some(name),
        below(dir, name).len() > dir.len(),
        below(dir, name).last() != '/',
        names(below(dir, name)) == base(dir).push(name),
{
    reveal_strlit("/");
    assert("/"@ =~= seq!['/']);
    if absolute(name) {
        assert(name.contains('/'));
    }
    let p = below(dir, name);
    assert(p.last() == name.last());
    assert(name.last() != '/') by {
        if name.last() == '/' {
            assert(name[name.len() - 1] == '/');
            assert(name.contains('/'));
        }
    }
    if dir.last() == '/' {
        assert(p =~= child(dir.drop_last(), name));
        law_a_child_adds_its_name(dir.drop_last(), name);
    } else {
        law_a_child_adds_its_name(dir, name);
    }
}

/// What lies in a directory is seen from further up as it is from there, with
/// its name behind a slash; and by its name alone from the directory itself.
pub proof fn law_a_child_is_seen_by_its_name(dir: Seq<char>, name: Seq<char>, base: Seq<char>)
    requires
        entry_name(name),
        dir.len() > 0,
        under(dir, base),
        dir.last() != '/',
        names(dir).len() > 0 ==> spans(dir).last().1 == dir.len(),
    ensures
        names(dir).len() == names(base).len() ==> relative(child(dir, name), base) == Some(name),
        names(dir).len() > names(base).len() ==> relative(child(dir, name), base) == Some(
            relative(dir, base)->0 + seq!['/'] + name,
        ),
        relative(base, base) == Some(Seq::<char>::empty()),
{
    let s = child(dir, name);
    lemma_spans_of_child_at(dir, name, 0);
    law_a_child_adds_its_name(dir, name);
    let n = names(base).len() as int;
    assert(names(s).take(n) =~= names(dir).take(n));
    assert(under(s, base));
    assert(names(base).take(n) =~= names(base));
    if names(dir).len() == n {
        assert(s.subrange(dir.len() as int + 1, s.len() as int) =~= name);
    } else {
        let from = spans(dir)[n].0;
        lemma_spans_in_range(dir, 0);
        assert(spans(s)[n] == spans(dir)[n]);
        assert(s.subrange(from, s.len() as int) =~= dir.subrange(from, dir.len() as int)
            + seq!['/'] + name);
    }
}

} // verus!

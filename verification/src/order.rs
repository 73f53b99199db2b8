//! The order of texts, character by character, of lists of texts, text by
//! text, and sorting by it.

use vstd::prelude::*;

use crate::item::{candidates, unticked, Candidate, CandidateModel};
use crate::paths;
use crate::text;
use crate::text::{chars_of, concat2};

verus! {

broadcast use vstd::seq::group_seq_axioms;

/// Whether `a[i..]` comes before `b[i..]`: at the first difference, or
/// because it ends first.
pub open spec fn before_at(a: Seq<char>, b: Seq<char>, i: int) -> bool
    decreases a.len() - i,
{
    if i >= b.len() {
        false
    } else if i >= a.len() {
        true
    } else if a[i] != b[i] {
        a[i] < b[i]
    } else {
        before_at(a, b, i + 1)
    }
}

/// Whether `a` comes before `b`.
pub open spec fn before(a: Seq<char>, b: Seq<char>) -> bool {
    before_at(a, b, 0)
}

pub fn is_before(a: &str, b: &str) -> (r: bool)
    ensures
        r == before(a@, b@),
{
    let v = chars_of(a);
    let w = chars_of(b);
    let mut i: usize = 0;
    while i < v.len() && i < w.len()
        invariant
            i <= v.len(),
            i <= w.len(),
            v@ == a@,
            w@ == b@,
            before(v@, w@) == before_at(v@, w@, i as int),
        decreases v.len() - i,
    {
        if v[i] != w[i] {
            return v[i] < w[i];
        }
        i += 1;
    }
    i < w.len()
}

/// Of two texts that agree up to `i`, one comes before the other or they are
/// the same.
pub proof fn lemma_total_at(a: Seq<char>, b: Seq<char>, i: int)
    requires
        0 <= i <= a.len(),
        i <= b.len(),
        a.take(i) == b.take(i),
    ensures
        before_at(a, b, i) || before_at(b, a, i) || a == b,
        !(before_at(a, b, i) && before_at(b, a, i)),
        before_at(a, b, i) ==> a != b,
    decreases a.len() - i,
{
    if i < a.len() && i < b.len() && a[i] == b[i] {
        assert(a.take(i + 1) =~= b.take(i + 1)) by {
            assert forall|k: int| 0 <= k < i implies a[k] == b[k] by {
                assert(a[k] == a.take(i)[k]);
                assert(b[k] == b.take(i)[k]);
            }
        }
        lemma_total_at(a, b, i + 1);
    } else if i == a.len() && i == b.len() {
        assert(a =~= b) by {
            assert(a.take(i) =~= a);
            assert(b.take(i) =~= b);
        }
    }
}

pub proof fn lemma_total(a: Seq<char>, b: Seq<char>)
    ensures
        before(a, b) || before(b, a) || a == b,
        !(before(a, b) && before(b, a)),
        !before(a, a),
{
    assert(a.take(0) =~= b.take(0));
    lemma_total_at(a, b, 0);
    lemma_total_at(a, a, 0);
}

pub proof fn lemma_transitive_at(a: Seq<char>, b: Seq<char>, c: Seq<char>, i: int)
    requires
        0 <= i,
        before_at(a, b, i),
        before_at(b, c, i),
    ensures
        before_at(a, c, i),
    decreases a.len() - i,
{
    if i < a.len() && i < b.len() && i < c.len() && a[i] == b[i] && b[i] == c[i] {
        lemma_transitive_at(a, b, c, i + 1);
    }
}

pub proof fn lemma_transitive(a: Seq<char>, b: Seq<char>, c: Seq<char>)
    requires
        before(a, b),
        before(b, c),
    ensures
        before(a, c),
{
    lemma_transitive_at(a, b, c, 0);
}

/// Whether the list `a[i..]` comes before `b[i..]`.
pub open spec fn list_before_at(a: Seq<Seq<char>>, b: Seq<Seq<char>>, i: int) -> bool
    decreases a.len() - i,
{
    if i >= b.len() {
        false
    } else if i >= a.len() {
        true
    } else if a[i] != b[i] {
        before(a[i], b[i])
    } else {
        list_before_at(a, b, i + 1)
    }
}

pub open spec fn list_before(a: Seq<Seq<char>>, b: Seq<Seq<char>>) -> bool {
    list_before_at(a, b, 0)
}

pub fn is_list_before(a: &Vec<String>, b: &Vec<String>) -> (r: bool)
    ensures
        r == list_before(text::texts(a@), text::texts(b@)),
{
    let ghost x = text::texts(a@);
    let ghost y = text::texts(b@);
    let mut i: usize = 0;
    while i < a.len() && i < b.len()
        invariant
            i <= a.len(),
            i <= b.len(),
            x == text::texts(a@),
            y == text::texts(b@),
            list_before(x, y) == list_before_at(x, y, i as int),
        decreases a.len() - i,
    {
        assert(x[i as int] == a@[i as int]@ && y[i as int] == b@[i as int]@);
        if a[i] != b[i] {
            return is_before(a[i].as_str(), b[i].as_str());
        }
        i += 1;
    }
    i < b.len()
}

pub proof fn lemma_list_total_at(a: Seq<Seq<char>>, b: Seq<Seq<char>>, i: int)
    requires
        0 <= i <= a.len(),
        i <= b.len(),
        a.take(i) == b.take(i),
    ensures
        list_before_at(a, b, i) || list_before_at(b, a, i) || a == b,
        !(list_before_at(a, b, i) && list_before_at(b, a, i)),
        list_before_at(a, b, i) ==> a != b,
    decreases a.len() - i,
{
    if i < a.len() && i < b.len() {
        lemma_total(a[i], b[i]);
        if a[i] == b[i] {
            assert(a.take(i + 1) =~= b.take(i + 1)) by {
                assert forall|k: int| 0 <= k < i implies a[k] == b[k] by {
                    assert(a[k] == a.take(i)[k]);
                    assert(b[k] == b.take(i)[k]);
                }
            }
            lemma_list_total_at(a, b, i + 1);
        }
    } else if i == a.len() && i == b.len() {
        assert(a =~= b) by {
            assert(a.take(i) =~= a);
            assert(b.take(i) =~= b);
        }
    }
}

pub proof fn lemma_list_total(a: Seq<Seq<char>>, b: Seq<Seq<char>>)
    ensures
        list_before(a, b) || list_before(b, a) || a == b,
        !(list_before(a, b) && list_before(b, a)),
        !list_before(a, a),
{
    assert(a.take(0) =~= b.take(0));
    lemma_list_total_at(a, b, 0);
    lemma_list_total_at(a, a, 0);
}

pub proof fn lemma_list_transitive_at(
    a: Seq<Seq<char>>,
    b: Seq<Seq<char>>,
    c: Seq<Seq<char>>,
    i: int,
)
    requires
        0 <= i,
        list_before_at(a, b, i),
        list_before_at(b, c, i),
    ensures
        list_before_at(a, c, i),
    decreases a.len() - i,
{
    if i < a.len() && i < b.len() && i < c.len() {
        if a[i] == b[i] && b[i] == c[i] {
            lemma_list_transitive_at(a, b, c, i + 1);
        } else if a[i] != b[i] && b[i] != c[i] {
            lemma_transitive(a[i], b[i], c[i]);
            lemma_total(a[i], c[i]);
        }
    }
}

pub proof fn lemma_list_transitive(a: Seq<Seq<char>>, b: Seq<Seq<char>>, c: Seq<Seq<char>>)
    requires
        list_before(a, b),
        list_before(b, c),
    ensures
        list_before(a, c),
{
    lemma_list_transitive_at(a, b, c, 0);
}

// ------------------------------------------------------------------ path order

/// How a name of a path is ranked: `.` before `..` before any other.
pub open spec fn ranked(name: Seq<char>) -> Seq<char> {
    if name == "."@ {
        "1"@ + name
    } else if name == ".."@ {
        "2"@ + name
    } else {
        "3"@ + name
    }
}

/// Paths are ordered name by name; one from the root comes first.
pub open spec fn path_key(p: Seq<char>) -> Seq<Seq<char>> {
    let names = paths::names(p);
    let ranks = Seq::new(names.len(), |i: int| ranked(names[i]));
    if paths::absolute(p) {
        seq!["0"@] + ranks
    } else {
        ranks
    }
}

pub fn path_key_list(p: &str) -> (r: Vec<String>)
    ensures
        text::texts(r@) == path_key(p@),
{
    let parts = paths::names_of(p);
    let ghost names = paths::names(p@);
    let ghost ranks = Seq::new(names.len(), |i: int| ranked(names[i]));
    let mut out: Vec<String> = Vec::new();
    if parts.absolute {
        out.push("0".to_owned());
    }
    let ghost head = text::texts(out@);
    let mut i: usize = 0;
    assert(text::texts(parts.names@).len() == parts.names.len());
    assert(text::texts(out@) =~= head + ranks.take(0));
    while i < parts.names.len()
        invariant
            i <= parts.names.len(),
            names == text::texts(parts.names@),
            ranks == Seq::new(names.len(), |i: int| ranked(names[i])),
            text::texts(out@) == head + ranks.take(i as int),
        decreases parts.names.len() - i,
    {
        let name = parts.names[i].as_str();
        assert(names[i as int] == name@);
        let ghost had = out@;
        let rank = if text::same(name, ".") {
            concat2("1", name)
        } else if text::same(name, "..") {
            concat2("2", name)
        } else {
            concat2("3", name)
        };
        out.push(rank);
        assert(text::texts(out@) =~= text::texts(had).push(ranks[i as int]));
        assert(ranks.take(i + 1) =~= ranks.take(i as int).push(ranks[i as int]));
        i += 1;
        assert(text::texts(out@) =~= head + ranks.take(i as int));
    }
    assert(ranks.take(ranks.len() as int) =~= ranks);
    assert(text::texts(out@) =~= path_key(p@));
    out
}

// -------------------------------------------------------------------- sorting

/// A value that is sorted by a list of texts.
pub trait Keyed {
    spec fn key(&self) -> Seq<Seq<char>>;

    fn key_list(&self) -> (r: Vec<String>)
        ensures
            text::texts(r@) == self.key(),
    ;
}

/// Candidates are sorted by label.
impl Keyed for Candidate {
    open spec fn key(&self) -> Seq<Seq<char>> {
        seq![self.label@]
    }

    fn key_list(&self) -> (r: Vec<String>) {
        text::list1(self.label.as_str())
    }
}

/// A path, sorted by its names.
pub struct FilePath {
    pub path: String,
}

impl Keyed for FilePath {
    open spec fn key(&self) -> Seq<Seq<char>> {
        path_key(self.path@)
    }

    fn key_list(&self) -> (r: Vec<String>) {
        path_key_list(self.path.as_str())
    }
}

/// Where `x` goes in the sorted `s[..end]`: behind everything that does not
/// come after it.
pub open spec fn slot<A>(
    s: Seq<A>,
    key: spec_fn(A) -> Seq<Seq<char>>,
    x: A,
    end: int,
) -> int
    decreases end,
{
    if end <= 0 || !list_before(key(x), key(s[end - 1])) {
        end
    } else {
        slot(s, key, x, end - 1)
    }
}

/// `s` in the order of the keys; equal keys keep their order.
pub open spec fn sorted<A>(s: Seq<A>, key: spec_fn(A) -> Seq<Seq<char>>) -> Seq<A>
    decreases s.len(),
{
    if s.len() == 0 {
        s
    } else {
        let rest = sorted(s.drop_last(), key);
        rest.insert(slot(rest, key, s.last(), rest.len() as int), s.last())
    }
}

pub open spec fn in_order<A>(s: Seq<A>, key: spec_fn(A) -> Seq<Seq<char>>) -> bool {
    forall|i: int, j: int|
        0 <= i < j < s.len() ==> !list_before(key(#[trigger] s[j]), key(#[trigger] s[i]))
}

pub proof fn lemma_slot<A>(s: Seq<A>, key: spec_fn(A) -> Seq<Seq<char>>, x: A, end: int)
    requires
        0 <= end <= s.len(),
    ensures
        0 <= slot(s, key, x, end) <= end,
        slot(s, key, x, end) > 0 ==> !list_before(key(x), key(s[slot(s, key, x, end) - 1])),
        forall|k: int|
            slot(s, key, x, end) <= k < end ==> list_before(key(x), key(#[trigger] s[k])),
    decreases end,
{
    if end > 0 && list_before(key(x), key(s[end - 1])) {
        lemma_slot(s, key, x, end - 1);
    }
}

/// Sorting puts the keys in order and neither adds nor loses anything.
pub proof fn law_sorting_orders_and_keeps<A>(s: Seq<A>, key: spec_fn(A) -> Seq<Seq<char>>)
    ensures
        in_order(sorted(s, key), key),
        sorted(s, key).len() == s.len(),
        sorted(s, key).to_multiset() == s.to_multiset(),
    decreases s.len(),
{
    broadcast use vstd::seq_lib::group_to_multiset_ensures;

    if s.len() > 0 {
        let rest = sorted(s.drop_last(), key);
        let x = s.last();
        law_sorting_orders_and_keeps(s.drop_last(), key);
        let at = slot(rest, key, x, rest.len() as int);
        lemma_slot(rest, key, x, rest.len() as int);
        let out = rest.insert(at, x);
        assert forall|i: int, j: int| 0 <= i < j < out.len() implies !list_before(
            key(#[trigger] out[j]),
            key(#[trigger] out[i]),
        ) by {
            if i < at && j == at {
                if i < at - 1 {
                    assert(!list_before(key(rest[at - 1]), key(rest[i])));
                    if list_before(key(x), key(rest[i])) {
                        lemma_list_total(key(rest[i]), key(rest[at - 1]));
                        if list_before(key(rest[i]), key(rest[at - 1])) {
                            lemma_list_transitive(key(x), key(rest[i]), key(rest[at - 1]));
                        }
                    }
                }
            } else if i == at && j > at {
                assert(out[j] == rest[j - 1]);
                lemma_list_total(key(x), key(rest[j - 1]));
            } else {
                let a = if i < at {
                    i
                } else {
                    i - 1
                };
                let b = if j < at {
                    j
                } else {
                    j - 1
                };
                assert(out[i] == rest[a] && out[j] == rest[b]);
            }
        }
        assert(s =~= s.drop_last().push(x));
    } else {
        assert(sorted(s, key) =~= s);
    }
}

/// Sorting keeps what there is.
pub proof fn lemma_sorted_holds<A>(s: Seq<A>, key: spec_fn(A) -> Seq<Seq<char>>, x: A)
    ensures
        sorted(s, key).contains(x) <==> s.contains(x),
{
    broadcast use vstd::seq_lib::group_to_multiset_ensures;

    law_sorting_orders_and_keeps(s, key);
    assert(sorted(s, key).contains(x) <==> sorted(s, key).to_multiset().contains(x));
    assert(s.contains(x) <==> s.to_multiset().contains(x));
}

/// Sorting values and then taking their models is the same as sorting the
/// models.
pub proof fn lemma_sorted_models<A, B>(
    s: Seq<A>,
    t: Seq<B>,
    key: spec_fn(A) -> Seq<Seq<char>>,
    model: spec_fn(A) -> B,
    model_key: spec_fn(B) -> Seq<Seq<char>>,
)
    requires
        t == s.map_values(model),
        forall|a: A| #[trigger] model_key(model(a)) == key(a),
    ensures
        sorted(t, model_key) == sorted(s, key).map_values(model),
    decreases s.len(),
{
    if s.len() > 0 {
        assert(t.drop_last() =~= s.drop_last().map_values(model));
        lemma_sorted_models(s.drop_last(), t.drop_last(), key, model, model_key);
        let rest = sorted(s.drop_last(), key);
        lemma_slot_models(rest, key, model, model_key, s.last(), rest.len() as int);
        lemma_slot(rest, key, s.last(), rest.len() as int);
        assert(sorted(t, model_key) =~= sorted(s, key).map_values(model));
    } else {
        assert(sorted(t, model_key) =~= sorted(s, key).map_values(model));
    }
}

proof fn lemma_slot_models<A, B>(
    s: Seq<A>,
    key: spec_fn(A) -> Seq<Seq<char>>,
    model: spec_fn(A) -> B,
    model_key: spec_fn(B) -> Seq<Seq<char>>,
    x: A,
    end: int,
)
    requires
        0 <= end <= s.len(),
        forall|a: A| #[trigger] model_key(model(a)) == key(a),
    ensures
        slot(s.map_values(model), model_key, model(x), end) == slot(s, key, x, end),
    decreases end,
{
    if end > 0 {
        assert(model_key(model(x)) == key(x));
        assert(model_key(model(s[end - 1])) == key(s[end - 1]));
        lemma_slot_models(s, key, model, model_key, x, end - 1);
    }
}

pub fn sort<T: Keyed>(v: Vec<T>) -> (r: Vec<T>)
    ensures
        r@ == sorted(v@, |t: T| t.key()),
{
    let ghost all = v@;
    let ghost key = |t: T| t.key();
    let mut rest = v;
    let mut done: Vec<T> = Vec::new();
    let mut stack: Vec<T> = Vec::new();
    while rest.len() > 0
        invariant
            rest@ + stack@.reverse() == all,
        decreases rest.len(),
    {
        let ghost was = rest@;
        let ghost had = stack@;
        if let Some(x) = rest.pop() {
            stack.push(x);
            assert(stack@.reverse() =~= seq![x] + had.reverse());
            assert(rest@ + stack@.reverse() =~= was + had.reverse());
        }
    }
    assert(stack@.reverse() =~= all);
    assert(all.take(0) =~= done@);
    while stack.len() > 0
        invariant
            key == (|t: T| t.key()),
            stack@.len() <= all.len(),
            stack@ == all.skip(all.len() - stack@.len()).reverse(),
            done@ == sorted(all.take(all.len() - stack@.len()), key),
        decreases stack.len(),
    {
        let ghost n = all.len() - stack@.len();
        let ghost had = stack@;
        if let Some(x) = stack.pop() {
            assert(x == had.last());
            assert(had.last() == all.skip(n)[0]);
            assert(stack@ =~= all.skip(n + 1).reverse());
            assert(all.take(n + 1).drop_last() =~= all.take(n));
            let mut at: usize = done.len();
            while at > 0 && is_list_before(&x.key_list(), &done[at - 1].key_list())
                invariant
                    key == (|t: T| t.key()),
                    at <= done.len(),
                    slot(done@, key, x, done@.len() as int) == slot(done@, key, x, at as int),
                decreases at,
            {
                at -= 1;
            }
            done.insert(at, x);
        }
    }
    assert(all.take(all.len() as int) =~= all);
    done
}

/// Candidates in the order of their labels.
pub open spec fn by_label(s: Seq<CandidateModel>) -> Seq<CandidateModel> {
    sorted(s, |c: CandidateModel| seq![c.label])
}

/// Putting candidates in order ticks none of them.
pub proof fn lemma_by_label_unticked(s: Seq<CandidateModel>)
    requires
        unticked(s),
    ensures
        unticked(by_label(s)),
{
    broadcast use vstd::seq_lib::group_to_multiset_ensures;

    let key = |c: CandidateModel| seq![c.label];
    law_sorting_orders_and_keeps(s, key);
    let list = by_label(s);
    assert forall|i: int| 0 <= i < list.len() implies !(#[trigger] list[i]).selectable by {
        assert(list.contains(list[i]));
        assert(list.to_multiset().contains(list[i]));
        assert(s.contains(list[i]));
    }
}

pub fn sort_by_label(v: Vec<Candidate>) -> (r: Vec<Candidate>)
    ensures
        candidates(r@) == by_label(candidates(v@)),
{
    let r = sort(v);
    proof {
        let key = |t: Candidate| t.key();
        let model = |t: Candidate| t@;
        let model_key = |c: CandidateModel| seq![c.label];
        assert(candidates(v@) =~= v@.map_values(model));
        lemma_sorted_models(v@, candidates(v@), key, model, model_key);
        assert(candidates(r@) =~= r@.map_values(model));
    }
    r
}

/// Paths in order.
pub open spec fn by_path(s: Seq<Seq<char>>) -> Seq<Seq<char>> {
    sorted(s, |p: Seq<char>| path_key(p))
}

pub fn sort_paths(v: Vec<String>) -> (r: Vec<String>)
    ensures
        text::texts(r@) == by_path(text::texts(v@)),
{
    let mut files: Vec<FilePath> = Vec::new();
    let mut i: usize = 0;
    while i < v.len()
        invariant
            i <= v.len(),
            files.len() == i,
            forall|k: int| 0 <= k < i ==> (#[trigger] files@[k]).path@ == v@[k]@,
        decreases v.len() - i,
    {
        files.push(FilePath { path: v[i].clone() });
        i += 1;
    }
    let ghost start = files@;
    let done = sort(files);
    let mut out: Vec<String> = Vec::new();
    let mut j: usize = 0;
    while j < done.len()
        invariant
            j <= done.len(),
            out.len() == j,
            forall|k: int| 0 <= k < j ==> (#[trigger] out@[k])@ == done@[k].path@,
        decreases done.len() - j,
    {
        out.push(done[j].path.clone());
        j += 1;
    }
    proof {
        let key = |t: FilePath| t.key();
        let model = |t: FilePath| t.path@;
        let model_key = |p: Seq<char>| path_key(p);
        assert(text::texts(v@) =~= start.map_values(model));
        lemma_sorted_models(start, text::texts(v@), key, model, model_key);
        assert(text::texts(out@) =~= done@.map_values(model));
    }
    out
}

impl Keyed for String {
    open spec fn key(&self) -> Seq<Seq<char>> {
        seq![self@]
    }

    fn key_list(&self) -> (r: Vec<String>) {
        let r = text::list1(self.as_str());
        r
    }
}

/// Names in order.
pub open spec fn by_name(s: Seq<Seq<char>>) -> Seq<Seq<char>> {
    sorted(s, |name: Seq<char>| seq![name])
}

pub fn sort_names(v: Vec<String>) -> (r: Vec<String>)
    ensures
        text::texts(r@) == by_name(text::texts(v@)),
{
    let r = sort(v);
    proof {
        let key = |t: String| t.key();
        let model = |t: String| t@;
        let model_key = |name: Seq<char>| seq![name];
        assert(text::texts(v@) =~= v@.map_values(model));
        lemma_sorted_models(v@, text::texts(v@), key, model, model_key);
        assert(text::texts(r@) =~= r@.map_values(model));
    }
    r
}

// ------------------------------------------------------------------------ laws


// ------------------------------------------------------------- what a list stands for

/// Whether the list holds something for each wanted one of the first `n`
/// items.
#[verifier::opaque]
pub open spec fn each_is_held<A, B>(
    list: Seq<B>,
    items: Seq<A>,
    n: int,
    wanted: spec_fn(A) -> bool,
    fits: spec_fn(B, A) -> bool,
) -> bool {
    forall|j: int|
        0 <= j < n && wanted(#[trigger] items[j]) ==> exists|k: int|
            0 <= k < list.len() && fits(#[trigger] list[k], items[j])
}

/// Whether this is for a wanted one of the first `n` items.
pub open spec fn is_wanted<A, B>(
    x: B,
    items: Seq<A>,
    n: int,
    wanted: spec_fn(A) -> bool,
    fits: spec_fn(B, A) -> bool,
) -> bool {
    exists|j: int| 0 <= j < n && wanted(#[trigger] items[j]) && fits(x, items[j])
}

/// Whether everything in the list is for a wanted one of the first `n` items.
#[verifier::opaque]
pub open spec fn each_is_wanted<A, B>(
    list: Seq<B>,
    items: Seq<A>,
    n: int,
    wanted: spec_fn(A) -> bool,
    fits: spec_fn(B, A) -> bool,
) -> bool {
    forall|k: int|
        0 <= k < list.len() ==> is_wanted(#[trigger] list[k], items, n, wanted, fits)
}

/// Whether the list holds something for each wanted one of the first `n`
/// items, and nothing else.
pub open spec fn stands_for<A, B>(
    list: Seq<B>,
    items: Seq<A>,
    n: int,
    wanted: spec_fn(A) -> bool,
    fits: spec_fn(B, A) -> bool,
) -> bool {
    &&& each_is_held(list, items, n, wanted, fits)
    &&& each_is_wanted(list, items, n, wanted, fits)
}

/// What is held for an item.
pub proof fn lemma_held<A, B>(
    list: Seq<B>,
    items: Seq<A>,
    n: int,
    wanted: spec_fn(A) -> bool,
    fits: spec_fn(B, A) -> bool,
    j: int,
) -> (k: int)
    requires
        each_is_held(list, items, n, wanted, fits),
        0 <= j < n,
        wanted(items[j]),
    ensures
        0 <= k < list.len(),
        fits(list[k], items[j]),
{
    reveal(each_is_held);
    choose|k: int| 0 <= k < list.len() && fits(#[trigger] list[k], items[j])
}

/// What something is held for.
pub proof fn lemma_held_for<A, B>(
    list: Seq<B>,
    items: Seq<A>,
    n: int,
    wanted: spec_fn(A) -> bool,
    fits: spec_fn(B, A) -> bool,
    k: int,
) -> (j: int)
    requires
        each_is_wanted(list, items, n, wanted, fits),
        0 <= k < list.len(),
    ensures
        0 <= j < n,
        wanted(items[j]),
        fits(list[k], items[j]),
{
    reveal(each_is_wanted);
    assert(is_wanted(list[k], items, n, wanted, fits));
    choose|j: int| 0 <= j < n && wanted(#[trigger] items[j]) && fits(list[k], items[j])
}

pub proof fn lemma_stands_for_none<A, B>(
    list: Seq<B>,
    items: Seq<A>,
    wanted: spec_fn(A) -> bool,
    fits: spec_fn(B, A) -> bool,
)
    requires
        list.len() == 0,
    ensures
        stands_for(list, items, 0, wanted, fits),
{
    reveal(each_is_held);
    reveal(each_is_wanted);
}

/// One more item that is wanted, with what fits it.
pub proof fn lemma_stands_for_more<A, B>(
    list: Seq<B>,
    items: Seq<A>,
    n: int,
    wanted: spec_fn(A) -> bool,
    fits: spec_fn(B, A) -> bool,
    more: B,
)
    requires
        0 < n <= items.len(),
        stands_for(list, items, n - 1, wanted, fits),
        wanted(items[n - 1]),
        fits(more, items[n - 1]),
    ensures
        stands_for(list.push(more), items, n, wanted, fits),
{
    let out = list.push(more);
    assert(each_is_held(out, items, n, wanted, fits)) by {
        assert forall|j: int| 0 <= j < n && wanted(#[trigger] items[j]) implies exists|k: int|
            0 <= k < out.len() && fits(#[trigger] out[k], items[j]) by {
            if j < n - 1 {
                let k = lemma_held(list, items, n - 1, wanted, fits, j);
                assert(fits(out[k], items[j]));
            } else {
                assert(fits(out[list.len() as int], items[j]));
            }
        }
        reveal(each_is_held);
    }
    assert(each_is_wanted(out, items, n, wanted, fits)) by {
        assert forall|k: int| 0 <= k < out.len() implies is_wanted(
            #[trigger] out[k],
            items,
            n,
            wanted,
            fits,
        ) by {
            if k < list.len() {
                assert(list[k] == out[k]);
                let j = lemma_held_for(list, items, n - 1, wanted, fits, k);
                assert(wanted(items[j]) && fits(out[k], items[j]));
            } else {
                assert(wanted(items[n - 1]) && fits(out[k], items[n - 1]));
            }
        }
        reveal(each_is_wanted);
    }
}

/// One more item that is not wanted.
pub proof fn lemma_stands_for_same<A, B>(
    list: Seq<B>,
    items: Seq<A>,
    n: int,
    wanted: spec_fn(A) -> bool,
    fits: spec_fn(B, A) -> bool,
)
    requires
        0 < n <= items.len(),
        stands_for(list, items, n - 1, wanted, fits),
        !wanted(items[n - 1]),
    ensures
        stands_for(list, items, n, wanted, fits),
{
    assert(each_is_held(list, items, n, wanted, fits)) by {
        assert forall|j: int| 0 <= j < n && wanted(#[trigger] items[j]) implies exists|k: int|
            0 <= k < list.len() && fits(#[trigger] list[k], items[j]) by {
            let k = lemma_held(list, items, n - 1, wanted, fits, j);
            assert(fits(list[k], items[j]));
        }
        reveal(each_is_held);
    }
    assert(each_is_wanted(list, items, n, wanted, fits)) by {
        assert forall|k: int| 0 <= k < list.len() implies is_wanted(
            #[trigger] list[k],
            items,
            n,
            wanted,
            fits,
        ) by {
            let j = lemma_held_for(list, items, n - 1, wanted, fits, k);
            assert(wanted(items[j]) && fits(list[k], items[j]));
        }
        reveal(each_is_wanted);
    }
}

} // verus!

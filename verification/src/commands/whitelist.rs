//! `whitelist`: shows and edits the user's list of paths to leave alone. The
//! functions work on the text of the file; a file that is not there is empty.

use vstd::prelude::*;

use crate::paths;
use crate::text;
use crate::text::concat2;

verus! {

broadcast use vstd::seq::group_seq_axioms;

/// Where the whitelist is kept.
pub fn whitelist_path(config_dir: &str) -> (r: String)
    ensures
        r@ == paths::joined(config_dir@, "whitelist"@),
{
    paths::join(config_dir, "whitelist")
}

/// Whether a line is a pattern and neither blank nor a comment.
pub open spec fn significant(line: Seq<char>) -> bool {
    text::trim(line).len() > 0 && !text::starts_with(text::trim(line), "#"@)
}

/// The patterns among the first `n` lines, without the space around them.
pub open spec fn listed(lines: Seq<Seq<char>>, n: int) -> Seq<Seq<char>>
    decreases n,
{
    if n <= 0 {
        Seq::empty()
    } else if significant(lines[n - 1]) {
        listed(lines, n - 1).push(text::trim(lines[n - 1]))
    } else {
        listed(lines, n - 1)
    }
}

/// The patterns of a whitelist.
pub open spec fn patterns(contents: Seq<char>) -> Seq<Seq<char>> {
    listed(text::lines(contents), text::lines(contents).len() as int)
}

/// The patterns, one to a line.
pub open spec fn listing(contents: Seq<char>) -> Seq<char> {
    if patterns(contents).len() == 0 {
        "(whitelist is empty)"@
    } else {
        text::join(patterns(contents), "\n"@)
    }
}

pub fn list(contents: &str) -> (r: String)
    ensures
        r@ == listing(contents@),
{
    let lines = text::split_lines(contents);
    let ghost all = text::lines(contents@);
    let mut out: Vec<String> = Vec::new();
    let mut i: usize = 0;
    assert(text::texts(out@) =~= Seq::empty());
    while i < lines.len()
        invariant
            i <= lines.len(),
            all == text::texts(lines@),
            text::texts(out@) == listed(all, i as int),
        decreases lines.len() - i,
    {
        assert(all[i as int] == lines@[i as int]@);
        let ghost had = out@;
        let line = text::trimmed(lines[i].as_str());
        if !line.as_str().is_empty() && !text::has_prefix(line.as_str(), "#") {
            out.push(line);
            assert(text::texts(out@) =~= text::texts(had).push(line@));
        }
        i += 1;
    }
    assert(text::texts(out@).len() == out@.len());
    if out.len() == 0 {
        "(whitelist is empty)".to_owned()
    } else {
        text::join_texts(&out, "\n")
    }
}

/// Whether a line of the whitelist is this pattern.
pub open spec fn present(lines: Seq<Seq<char>>, pattern: Seq<char>) -> bool {
    exists|i: int| 0 <= i < lines.len() && text::trim(#[trigger] lines[i]) == text::trim(pattern)
}

fn is_present(lines: &Vec<String>, pattern: &str) -> (r: bool)
    ensures
        r == present(text::texts(lines@), pattern@),
{
    let ghost all = text::texts(lines@);
    let wanted = text::trimmed(pattern);
    let mut i: usize = 0;
    while i < lines.len()
        invariant
            i <= lines.len(),
            all == text::texts(lines@),
            wanted@ == text::trim(pattern@),
            forall|k: int|
                0 <= k < i ==> text::trim(#[trigger] all[k]) != text::trim(pattern@),
        decreases lines.len() - i,
    {
        assert(all[i as int] == lines@[i as int]@);
        let line = text::trimmed(lines[i].as_str());
        if text::same(line.as_str(), wanted.as_str()) {
            assert(text::trim(all[i as int]) == text::trim(pattern@));
            return true;
        }
        i += 1;
    }
    false
}

/// Whether a text ends where a line ends.
pub open spec fn whole_lines(contents: Seq<char>) -> bool {
    contents.len() == 0 || contents.last() == '\n'
}

/// The text with its last line finished.
pub open spec fn ended(contents: Seq<char>) -> Seq<char> {
    if whole_lines(contents) {
        contents
    } else {
        contents + "\n"@
    }
}

/// The whitelist with the pattern on a line of its own at the end.
pub open spec fn added(contents: Seq<char>, pattern: Seq<char>) -> Seq<char> {
    ended(contents) + pattern + "\n"@
}

fn is_whole_lines(contents: &str) -> (r: bool)
    ensures
        r == whole_lines(contents@),
{
    let v = text::chars_of(contents);
    v.len() == 0 || v[v.len() - 1] == '\n'
}

/// What is said of adding a pattern, and what the file then holds, unless
/// the pattern is in it already.
pub open spec fn adding(contents: Seq<char>, pattern: Seq<char>) -> (Seq<char>, Option<Seq<char>>) {
    if present(text::lines(contents), pattern) {
        ("Already whitelisted: "@ + pattern, None)
    } else {
        ("Added to whitelist: "@ + pattern, Some(added(contents, pattern)))
    }
}

pub fn add(contents: &str, pattern: &str) -> (r: (String, Option<String>))
    ensures
        (r.0@, text::opt_text(r.1)) == adding(contents@, pattern@),
{
    let lines = text::split_lines(contents);
    if is_present(&lines, pattern) {
        return (concat2("Already whitelisted: ", pattern), None);
    }
    let more = if is_whole_lines(contents) {
        text::concat3(contents, pattern, "\n")
    } else {
        text::concat4(contents, "\n", pattern, "\n")
    };
    (concat2("Added to whitelist: ", pattern), Some(more))
}

/// The lines among the first `n` that are not this pattern.
pub open spec fn others(lines: Seq<Seq<char>>, n: int, pattern: Seq<char>) -> Seq<Seq<char>>
    decreases n,
{
    if n <= 0 {
        Seq::empty()
    } else if text::trim(lines[n - 1]) != text::trim(pattern) {
        others(lines, n - 1, pattern).push(lines[n - 1])
    } else {
        others(lines, n - 1, pattern)
    }
}

/// The whitelist without the pattern.
pub open spec fn removed(contents: Seq<char>, pattern: Seq<char>) -> Seq<char> {
    let lines = text::lines(contents);
    text::unlined(others(lines, lines.len() as int, pattern))
}

/// What is said of removing a pattern, and what the file then holds, if the
/// pattern was in it.
pub open spec fn removing(contents: Seq<char>, pattern: Seq<char>) -> (
    Seq<char>,
    Option<Seq<char>>,
) {
    if present(text::lines(contents), pattern) {
        ("Removed from whitelist: "@ + pattern, Some(removed(contents, pattern)))
    } else {
        ("Not in whitelist: "@ + pattern, None)
    }
}

pub fn remove(contents: &str, pattern: &str) -> (r: (String, Option<String>))
    ensures
        (r.0@, text::opt_text(r.1)) == removing(contents@, pattern@),
{
    let lines = text::split_lines(contents);
    if !is_present(&lines, pattern) {
        return (concat2("Not in whitelist: ", pattern), None);
    }
    let ghost all = text::texts(lines@);
    let wanted = text::trimmed(pattern);
    let mut rest: Vec<String> = Vec::new();
    let mut i: usize = 0;
    assert(text::texts(rest@) =~= Seq::empty());
    while i < lines.len()
        invariant
            i <= lines.len(),
            all == text::texts(lines@),
            wanted@ == text::trim(pattern@),
            text::texts(rest@) == others(all, i as int, pattern@),
        decreases lines.len() - i,
    {
        assert(all[i as int] == lines@[i as int]@);
        let ghost had = rest@;
        let line = text::trimmed(lines[i].as_str());
        if !text::same(line.as_str(), wanted.as_str()) {
            let kept = lines[i].clone();
            rest.push(kept);
            assert(text::texts(rest@) =~= text::texts(had).push(kept@));
        }
        i += 1;
    }
    assert(text::texts(rest@).len() == rest@.len());
    let mut out = text::join_texts(&rest, "\n");
    if rest.len() > 0 {
        out.append("\n");
    }
    assert(out@ =~= removed(contents@, pattern@));
    (concat2("Removed from whitelist: ", pattern), Some(out))
}

/// What is asked of the whitelist.
#[derive(Debug)]
pub enum WhitelistAction {
    Add { pattern: String },
    Remove { pattern: String },
    List,
}

/// What is said of an action, and what the file then holds if it changes.
pub open spec fn answered(action: WhitelistAction, contents: Seq<char>) -> (
    Seq<char>,
    Option<Seq<char>>,
) {
    match action {
        WhitelistAction::Add { pattern } => adding(contents, pattern@),
        WhitelistAction::Remove { pattern } => removing(contents, pattern@),
        WhitelistAction::List => (listing(contents), None),
    }
}

pub fn answer(action: &WhitelistAction, contents: &str) -> (r: (String, Option<String>))
    ensures
        (r.0@, text::opt_text(r.1)) == answered(*action, contents@),
{
    match action {
        WhitelistAction::Add { pattern } => self::add(contents, pattern.as_str()),
        WhitelistAction::Remove { pattern } => remove(contents, pattern.as_str()),
        WhitelistAction::List => (list(contents), None),
    }
}

// ------------------------------------------------------------------------- laws

proof fn lemma_listed_of_both(a: Seq<Seq<char>>, b: Seq<Seq<char>>, n: int)
    requires
        0 <= n <= b.len(),
    ensures
        listed(a + b, a.len() + n) == listed(a, a.len() as int) + listed(b, n),
    decreases n,
{
    if n == 0 {
        lemma_listed_of_prefix(a, b, a.len() as int);
        assert(listed(a, a.len() as int) + listed(b, 0) =~= listed(a, a.len() as int));
    } else {
        lemma_listed_of_both(a, b, n - 1);
        assert((a + b)[a.len() + n - 1] == b[n - 1]);
        assert(listed(a + b, a.len() + n) =~= listed(a, a.len() as int) + listed(b, n));
    }
}

proof fn lemma_listed_of_prefix(a: Seq<Seq<char>>, b: Seq<Seq<char>>, n: int)
    requires
        0 <= n <= a.len(),
    ensures
        listed(a + b, n) == listed(a, n),
    decreases n,
{
    if n > 0 {
        lemma_listed_of_prefix(a, b, n - 1);
        assert((a + b)[n - 1] == a[n - 1]);
    }
}

proof fn lemma_lines_of_ended(contents: Seq<char>)
    ensures
        whole_lines(ended(contents)),
        text::lines(ended(contents)).len() == text::lines(contents).len(),
        forall|i: int|
            #![trigger text::lines(ended(contents))[i]]
            0 <= i < text::lines(contents).len() ==> text::trim(text::lines(ended(contents))[i])
                == text::trim(text::lines(contents)[i]) && (text::lines(ended(contents))[i]
                == text::lines(contents)[i] || text::lines(ended(contents))[i] == text::chop_cr(
                text::lines(contents)[i],
            )),
{
    reveal_strlit("\n");
    if !whole_lines(contents) {
        text::lemma_lines_ended(contents);
        text::lemma_trim_chop(text::lines(contents).last());
        assert(ended(contents).last() == '\n');
    }
}

proof fn lemma_lines_of_added(contents: Seq<char>, pattern: Seq<char>)
    requires
        !pattern.contains('\n'),
    ensures
        text::lines(added(contents, pattern)) == text::lines(ended(contents)).push(
            text::chop_cr(pattern),
        ),
{
    lemma_lines_of_ended(contents);
    text::lemma_one_line(pattern);
    text::lemma_lines_of_both(ended(contents), pattern + "\n"@);
    assert(added(contents, pattern) =~= ended(contents) + (pattern + "\n"@));
    assert(text::lines(added(contents, pattern)) =~= text::lines(ended(contents)).push(
        text::chop_cr(pattern),
    ));
}

/// Patterns are told by their lines without the space around them.
proof fn lemma_listed_by_trim(a: Seq<Seq<char>>, b: Seq<Seq<char>>, n: int)
    requires
        0 <= n <= a.len(),
        a.len() == b.len(),
        forall|i: int| 0 <= i < a.len() ==> text::trim(#[trigger] a[i]) == text::trim(b[i]),
    ensures
        listed(a, n) == listed(b, n),
    decreases n,
{
    if n > 0 {
        lemma_listed_by_trim(a, b, n - 1);
        assert(text::trim(a[n - 1]) == text::trim(b[n - 1]));
    }
}

/// A pattern that was added is shown, behind those that were there, and
/// adding it again changes nothing.
pub proof fn law_added_pattern_is_listed(contents: Seq<char>, pattern: Seq<char>)
    requires
        !pattern.contains('\n'),
        significant(pattern),
    ensures
        patterns(added(contents, pattern)) == patterns(contents).push(text::trim(pattern)),
        present(text::lines(added(contents, pattern)), pattern),
{
    let before = text::lines(ended(contents));
    let line = text::chop_cr(pattern);
    lemma_lines_of_added(contents, pattern);
    lemma_lines_of_ended(contents);
    lemma_listed_by_trim(before, text::lines(contents), before.len() as int);
    text::lemma_trim_chop(pattern);
    let after = before.push(line);
    assert(after =~= before + seq![line]);
    lemma_listed_of_both(before, seq![line], 1);
    assert(listed(seq![line], 1) =~= seq![text::trim(pattern)]) by {
        assert(listed(seq![line], 0) =~= Seq::empty());
        assert(seq![line][0] == line);
    }
    assert(listed(after, after.len() as int) =~= patterns(contents).push(text::trim(pattern)));
    assert(text::trim(after[before.len() as int]) == text::trim(pattern));
}

proof fn lemma_others(lines: Seq<Seq<char>>, n: int, pattern: Seq<char>, k: int)
    requires
        0 <= n <= lines.len(),
        0 <= k < others(lines, n, pattern).len(),
    ensures
        text::trim(others(lines, n, pattern)[k]) != text::trim(pattern),
        lines.contains(others(lines, n, pattern)[k]),
    decreases n,
{
    if n > 0 {
        if k < others(lines, n - 1, pattern).len() {
            lemma_others(lines, n - 1, pattern, k);
        } else {
            assert(lines[n - 1] == others(lines, n, pattern)[k]);
        }
    }
}

proof fn lemma_lines_of_removed(contents: Seq<char>, pattern: Seq<char>)
    ensures
        ({
            let lines = text::lines(contents);
            let rest = others(lines, lines.len() as int, pattern);
            text::lines(removed(contents, pattern)) == Seq::new(
                rest.len(),
                |i: int| text::chop_cr(rest[i]),
            )
        }),
{
    let lines = text::lines(contents);
    let rest = others(lines, lines.len() as int, pattern);
    assert forall|i: int| 0 <= i < rest.len() implies !(#[trigger] rest[i]).contains('\n') by {
        lemma_others(lines, lines.len() as int, pattern, i);
        let j = choose|j: int| 0 <= j < lines.len() && lines[j] == rest[i];
        text::lemma_lines_hold_no_feed(contents, 0, j);
    }
    text::lemma_lines_of_unlined(rest);
}

/// A pattern that was removed is gone.
pub proof fn law_removed_pattern_is_gone(contents: Seq<char>, pattern: Seq<char>)
    ensures
        !present(text::lines(removed(contents, pattern)), pattern),
{
    let lines = text::lines(contents);
    let rest = others(lines, lines.len() as int, pattern);
    lemma_lines_of_removed(contents, pattern);
    let after = text::lines(removed(contents, pattern));
    assert forall|i: int| 0 <= i < after.len() implies text::trim(#[trigger] after[i])
        != text::trim(pattern) by {
        lemma_others(lines, lines.len() as int, pattern, i);
        text::lemma_trim_chop(rest[i]);
    }
}

proof fn lemma_others_of_all(lines: Seq<Seq<char>>, n: int, pattern: Seq<char>)
    requires
        0 <= n <= lines.len(),
        !present(lines, pattern),
    ensures
        others(lines, n, pattern) == lines.take(n),
    decreases n,
{
    if n > 0 {
        lemma_others_of_all(lines, n - 1, pattern);
        assert(text::trim(lines[n - 1]) != text::trim(pattern));
    }
    assert(others(lines, n, pattern) =~= lines.take(n));
}

/// Whether no line ends in a carriage return.
pub open spec fn plain_lines(lines: Seq<Seq<char>>) -> bool {
    forall|i: int| 0 <= i < lines.len() ==> text::chop_cr(#[trigger] lines[i]) == lines[i]
}

/// Removing a pattern that was just added leaves the patterns that were
/// there before, and every other line in its place, comments and blank ones
/// too. Only a carriage return at the end of a line may go.
pub proof fn law_remove_undoes_add(contents: Seq<char>, pattern: Seq<char>)
    requires
        !pattern.contains('\n'),
        !present(text::lines(contents), pattern),
    ensures
        patterns(removed(added(contents, pattern), pattern)) == patterns(contents),
        plain_lines(text::lines(contents)) ==> text::lines(
            removed(added(contents, pattern), pattern),
        ) == text::lines(contents),
{
    let lines = text::lines(contents);
    let before = text::lines(ended(contents));
    let line = text::chop_cr(pattern);
    lemma_lines_of_added(contents, pattern);
    lemma_lines_of_ended(contents);
    text::lemma_trim_chop(pattern);
    let after = before.push(line);
    let n = before.len() as int;
    assert(!present(before, pattern)) by {
        if present(before, pattern) {
            let i = choose|i: int|
                0 <= i < before.len() && text::trim(#[trigger] before[i]) == text::trim(pattern);
            assert(text::trim(lines[i]) == text::trim(pattern));
        }
    }
    lemma_others_of_prefix(before, line, n, pattern);
    lemma_others_of_all(before, n, pattern);
    assert(before.take(n) =~= before);
    assert(others(after, n + 1, pattern) == before);
    lemma_lines_of_removed(added(contents, pattern), pattern);
    let left = text::lines(removed(added(contents, pattern), pattern));
    assert forall|i: int| 0 <= i < left.len() implies text::trim(#[trigger] left[i])
        == text::trim(lines[i]) by {
        text::lemma_trim_chop(before[i]);
    }
    lemma_listed_by_trim(left, lines, n);
    if plain_lines(lines) {
        assert forall|i: int| 0 <= i < n implies left[i] == lines[i] by {
            assert(text::chop_cr(lines[i]) == lines[i]);
            assert(before[i] == lines[i]);
        }
        assert(left =~= lines);
    }
}

proof fn lemma_others_of_prefix(lines: Seq<Seq<char>>, line: Seq<char>, n: int, pattern: Seq<char>)
    requires
        0 <= n <= lines.len(),
    ensures
        others(lines.push(line), n, pattern) == others(lines, n, pattern),
    decreases n,
{
    if n > 0 {
        lemma_others_of_prefix(lines, line, n - 1, pattern);
    }
}

/// The file is written anew exactly where that changes what is whitelisted:
/// for a pattern that was not there to add, or that was there to remove.
pub proof fn law_the_file_changes_where_it_must(contents: Seq<char>, pattern: Seq<char>)
    requires
        !pattern.contains('\n'),
        significant(pattern),
    ensures
        ({
            let there = present(text::lines(contents), pattern);
            let with = adding(contents, pattern).1;
            let without = removing(contents, pattern).1;
            &&& with is None <==> there
            &&& with is Some ==> patterns(with->0) == patterns(contents).push(text::trim(pattern))
            &&& without is Some <==> there
            &&& without is Some ==> !present(text::lines(without->0), pattern)
        }),
{
    law_added_pattern_is_listed(contents, pattern);
    law_removed_pattern_is_gone(contents, pattern);
}

/// The list shows every pattern, and nothing is written for it.
pub proof fn law_the_list_shows_every_pattern(contents: Seq<char>, i: int)
    requires
        0 <= i < patterns(contents).len(),
    ensures
        text::contains(answered(WhitelistAction::List, contents).0, patterns(contents)[i]),
        answered(WhitelistAction::List, contents).1 is None,
{
    lemma_joined_holds(patterns(contents), i);
}

proof fn lemma_joined_holds(list: Seq<Seq<char>>, i: int)
    requires
        0 <= i < list.len(),
    ensures
        text::contains(text::join(list, "\n"@), list[i]),
    decreases list.len(),
{
    let p = list[i];
    text::lemma_contains_on(p);
    let rest = list.drop_last();
    if i < rest.len() {
        lemma_joined_holds(rest, i);
        assert(rest[i] == p);
    }
    text::lemma_contains_more(text::join(rest, "\n"@) + "\n"@, list.last(), p);
}

} // verus!

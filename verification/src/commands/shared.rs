//! What the commands have in common: whether to ask, preview or act, and how
//! a run is told of afterwards.

use vstd::prelude::*;

use crate::exec::{
    goes_on, performed, performed_with_helper, since, Act, OpModel, StepModel,
};
use crate::item::{candidates, groups, CandidateModel, Group, GroupModel, Risk};
use crate::output::Mode;
use crate::safety::journal::{
    all_written, gives_back, handed, lemma_all_written, lemma_written_adds,
    lemma_written_was_handed, records, written, Entry, Reading, Record, RecordModel,
};
use crate::text;
use crate::text::concat4;

verus! {

broadcast use vstd::seq::group_seq_axioms;

/// Whether to show the checklist: only to somebody at a terminal who gave no
/// `--yes`.
pub fn interactive(mode: Mode, yes: bool, stderr_is_tty: bool) -> (r: bool)
    ensures
        r == (mode == Mode::Human && !yes && stderr_is_tty),
{
    mode == Mode::Human && !yes && stderr_is_tty
}

/// What a run without a checklist does.
#[derive(Debug, Clone, Copy, PartialEq, Eq, Structural)]
pub enum Intent {
    /// Only shows what there is.
    Plan,
    /// Goes through the motions and puts them on record.
    Preview,
    Act,
}

/// `--dry-run` always wins over `--yes`.
pub open spec fn intended(yes: bool, dry_run: bool) -> Intent {
    if dry_run {
        Intent::Preview
    } else if yes {
        Intent::Act
    } else {
        Intent::Plan
    }
}

pub fn intent(yes: bool, dry_run: bool) -> (r: Intent)
    ensures
        r == intended(yes, dry_run),
{
    if dry_run {
        Intent::Preview
    } else if yes {
        Intent::Act
    } else {
        Intent::Plan
    }
}

// ------------------------------------------------------------------- afterwards

/// Whether a record tells of something that was skipped.
pub open spec fn was_skipped(r: RecordModel) -> bool {
    text::starts_with(r.outcome, "skipped"@)
}

/// Whether a record tells of something that went wrong.
pub open spec fn went_wrong(r: RecordModel) -> bool {
    text::starts_with(r.outcome, "error"@) || text::starts_with(r.outcome, "refused"@)
}

/// How many of the first `n` records of the run were done, or in a dry run
/// would have been.
pub open spec fn ran_count(list: Seq<RecordModel>, n: int, run_id: Seq<char>) -> nat
    decreases n,
{
    if n <= 0 {
        0
    } else {
        let before = ran_count(list, n - 1, run_id);
        let r = list[n - 1];
        if r.run_id == run_id && !was_skipped(r) && !went_wrong(r) {
            before + 1
        } else {
            before
        }
    }
}

pub open spec fn skipped_count(list: Seq<RecordModel>, n: int, run_id: Seq<char>) -> nat
    decreases n,
{
    if n <= 0 {
        0
    } else {
        let before = skipped_count(list, n - 1, run_id);
        let r = list[n - 1];
        if r.run_id == run_id && was_skipped(r) {
            before + 1
        } else {
            before
        }
    }
}

/// What a note says of a record.
pub open spec fn note(r: RecordModel) -> Seq<char> {
    "note: "@ + r.rule + " — "@ + r.outcome
}

/// A note for everything that was skipped or went wrong.
pub open spec fn run_notes(list: Seq<RecordModel>, n: int, run_id: Seq<char>) -> Seq<Seq<char>>
    decreases n,
{
    if n <= 0 {
        Seq::empty()
    } else {
        let before = run_notes(list, n - 1, run_id);
        let r = list[n - 1];
        if r.run_id == run_id && (was_skipped(r) || went_wrong(r)) {
            before.push(note(r))
        } else {
            before
        }
    }
}

/// Sorts the records of one run: how many were done, how many skipped, and a
/// note on each that was skipped or went wrong, so that nothing just shrinks
/// the total in silence.
pub fn summarize_run(list: &Vec<Record>, run_id: &str) -> (r: (usize, usize, Vec<String>))
    ensures
        r.0 == ran_count(records(list@), list@.len() as int, run_id@),
        r.1 == skipped_count(records(list@), list@.len() as int, run_id@),
        text::texts(r.2@) == run_notes(records(list@), list@.len() as int, run_id@),
{
    let ghost all = records(list@);
    let mut ran: usize = 0;
    let mut skipped: usize = 0;
    let mut notes: Vec<String> = Vec::new();
    let mut i: usize = 0;
    assert(text::texts(notes@) =~= Seq::empty());
    while i < list.len()
        invariant
            i <= list.len(),
            all == records(list@),
            ran <= i,
            skipped <= i,
            ran == ran_count(all, i as int, run_id@),
            skipped == skipped_count(all, i as int, run_id@),
            text::texts(notes@) == run_notes(all, i as int, run_id@),
        decreases list.len() - i,
    {
        assert(all[i as int] == list@[i as int]@);
        let ghost had = notes@;
        if text::same(list[i].run_id.as_str(), run_id) {
            let outcome = list[i].outcome.as_str();
            let is_skip = text::has_prefix(outcome, "skipped");
            let is_wrong = text::has_prefix(outcome, "error") || text::has_prefix(
                outcome,
                "refused",
            );
            if is_skip {
                skipped += 1;
            } else if !is_wrong {
                ran += 1;
            }
            if is_skip || is_wrong {
                let note = concat4("note: ", list[i].rule.as_str(), " — ", outcome);
                notes.push(note);
                assert(text::texts(notes@) =~= text::texts(had).push(note@));
            }
        }
        i += 1;
    }
    (ran, skipped, notes)
}

/// The first `n` notes, one to a line.
pub open spec fn note_lines(notes: Seq<Seq<char>>, n: int) -> Seq<char>
    decreases n,
{
    if n <= 0 {
        Seq::empty()
    } else {
        note_lines(notes, n - 1) + "\n  "@ + notes[n - 1]
    }
}

/// A summary with its notes below.
pub fn with_notes(summary: &str, notes: &Vec<String>) -> (r: String)
    ensures
        r@ == summary@ + note_lines(text::texts(notes@), notes@.len() as int),
{
    let ghost all = text::texts(notes@);
    let mut out = summary.to_owned();
    let mut i: usize = 0;
    assert(out@ =~= summary@ + note_lines(all, 0));
    while i < notes.len()
        invariant
            i <= notes.len(),
            all == text::texts(notes@),
            out@ == summary@ + note_lines(all, i as int),
        decreases notes.len() - i,
    {
        assert(all[i as int] == notes@[i as int]@);
        out.append("\n  ");
        out.append(notes[i].as_str());
        assert(out@ =~= summary@ + note_lines(all, i + 1));
        i += 1;
    }
    out
}

/// What the records of a run add below its summary.
pub open spec fn notes_below(list: Seq<RecordModel>, run_id: Seq<char>) -> Seq<char> {
    let notes = run_notes(list, list.len() as int, run_id);
    note_lines(notes, notes.len() as int)
}

pub fn annotate(summary: &str, told: &Vec<Record>, run_id: &str) -> (r: String)
    ensures
        r@ == summary@ + notes_below(records(told@), run_id@),
{
    let (_, _, notes) = summarize_run(told, run_id);
    with_notes(summary, &notes)
}

// ------------------------------------------------------------------------ plans

/// Whether there is anything to tell of a group.
pub open spec fn has_news(g: GroupModel) -> bool {
    g.candidates.len() > 0 || g.skipped.len() > 0
}

/// Whether there is anything to tell at all.
pub open spec fn any_news(list: Seq<GroupModel>) -> bool {
    exists|i: int| 0 <= i < list.len() && has_news(#[trigger] list[i])
}

pub fn anything_found(list: &Vec<Group>) -> (r: bool)
    ensures
        r == any_news(groups(list@)),
{
    let ghost all = groups(list@);
    let mut i: usize = 0;
    while i < list.len()
        invariant
            i <= list.len(),
            all == groups(list@),
            forall|k: int| 0 <= k < i ==> !has_news(#[trigger] all[k]),
        decreases list.len() - i,
    {
        assert(all[i as int] == list@[i as int]@);
        if list[i].candidates.len() > 0 || list[i].skipped.len() > 0 {
            assert(has_news(all[i as int]));
            return true;
        }
        i += 1;
    }
    false
}

pub open spec fn risk_tag(risk: Risk) -> Seq<char> {
    match risk {
        Risk::Safe => "safe"@,
        Risk::Moderate => "moderate"@,
        Risk::Risky => "risky"@,
    }
}

/// The heading of a group: its title, risk and privilege.
pub open spec fn heading(g: GroupModel) -> Seq<char> {
    g.title + " ["@ + risk_tag(g.risk) + (if g.requires_sudo {
        ", sudo"@
    } else {
        ""@
    }) + "]\n"@
}

pub fn heading_of(g: &Group) -> (r: String)
    ensures
        r@ == heading(g@),
{
    let risk = match g.risk {
        Risk::Safe => "safe",
        Risk::Moderate => "moderate",
        Risk::Risky => "risky",
    };
    let sudo = if g.requires_sudo {
        ", sudo"
    } else {
        ""
    };
    let mut out = g.title.clone();
    out.append(" [");
    out.append(risk);
    out.append(sudo);
    out.append("]\n");
    out
}

/// The first `n` of the things a group leaves out, one to a line.
pub open spec fn skip_lines(list: Seq<(Seq<char>, Seq<char>)>, n: int) -> Seq<char>
    decreases n,
{
    if n <= 0 {
        Seq::empty()
    } else {
        skip_lines(list, n - 1) + ("  "@ + list[n - 1].0 + "  skipped: "@ + list[n - 1].1
            + "\n"@)
    }
}

pub fn skip_lines_of(g: &Group) -> (r: String)
    ensures
        r@ == skip_lines(g@.skipped, g@.skipped.len() as int),
{
    let ghost all = g@.skipped;
    let mut out = "".to_owned();
    proof {
        reveal_strlit("");
    }
    let mut i: usize = 0;
    assert(out@ =~= Seq::empty());
    while i < g.skipped.len()
        invariant
            i <= g.skipped.len(),
            all == g@.skipped,
            out@ == skip_lines(all, i as int),
        decreases g.skipped.len() - i,
    {
        assert(all[i as int] == (g.skipped@[i as int].0@, g.skipped@[i as int].1@));
        out.append("  ");
        out.append(g.skipped[i].0.as_str());
        out.append("  skipped: ");
        out.append(g.skipped[i].1.as_str());
        out.append("\n");
        assert(out@ =~= skip_lines(all, i + 1));
        i += 1;
    }
    out
}

/// The bytes of the selectable ones among the first `n`, on top of `from`;
/// the largest number there is where they add up to more.
pub open spec fn selectable_bytes(list: Seq<CandidateModel>, n: int, from: u64) -> u64
    decreases n,
{
    if n <= 0 {
        from
    } else {
        let before = selectable_bytes(list, n - 1, from);
        if !list[n - 1].selectable {
            before
        } else if before + list[n - 1].bytes > u64::MAX {
            u64::MAX
        } else {
            (before + list[n - 1].bytes) as u64
        }
    }
}

pub fn add_selectable(g: &Group, from: u64) -> (r: u64)
    ensures
        r == selectable_bytes(g@.candidates, g@.candidates.len() as int, from),
{
    let ghost all = g@.candidates;
    let mut total: u64 = from;
    let mut i: usize = 0;
    while i < g.candidates.len()
        invariant
            i <= g.candidates.len(),
            all == candidates(g.candidates@),
            total == selectable_bytes(all, i as int, from),
        decreases g.candidates.len() - i,
    {
        assert(all[i as int] == g.candidates@[i as int]@);
        if g.candidates[i].selectable {
            total = total.saturating_add(g.candidates[i].bytes);
        }
        i += 1;
    }
    total
}

// ------------------------------------------------------------------------ laws

/// A preview is never a real run: `--dry-run` is not acted on, whatever else
/// is asked for, and without `--yes` nothing is.
pub proof fn law_dry_run_wins(yes: bool, dry_run: bool)
    ensures
        intended(yes, dry_run) == Intent::Act <==> yes && !dry_run,
        dry_run ==> intended(yes, dry_run) == Intent::Preview,
{
}

/// Whether all of these records are of the run.
pub open spec fn of_run(list: Seq<RecordModel>, run_id: Seq<char>) -> bool {
    forall|k: int| 0 <= k < list.len() ==> (#[trigger] list[k]).run_id == run_id
}

/// Whether none of these records is of the run.
pub open spec fn none_of_run(list: Seq<RecordModel>, run_id: Seq<char>) -> bool {
    forall|k: int| 0 <= k < list.len() ==> (#[trigger] list[k]).run_id != run_id
}

/// Whether the journal holds a run as it was: the reading gives back all that
/// was handed over, all of the run could be written, and nothing before the
/// run goes by its id. `entries` are the records handed over before the run
/// and after it.
pub open spec fn kept_in_full(
    earlier: Seq<RecordModel>,
    entries: (Seq<Entry>, Seq<Entry>),
    reading: Reading,
    run_id: Seq<char>,
) -> bool {
    &&& gives_back(earlier, entries.1, reading)
    &&& none_of_run(earlier, run_id)
    &&& none_of_run(handed(entries.0), run_id)
    &&& all_written(since(entries))
}

/// What comes before the run neither counts nor is told of.
proof fn lemma_told_of_run(a: Seq<RecordModel>, b: Seq<RecordModel>, n: int, run_id: Seq<char>)
    requires
        none_of_run(a, run_id),
        0 <= n <= b.len(),
    ensures
        ran_count(a + b, a.len() + n, run_id) == ran_count(b, n, run_id),
        skipped_count(a + b, a.len() + n, run_id) == skipped_count(b, n, run_id),
        run_notes(a + b, a.len() + n, run_id) == run_notes(b, n, run_id),
    decreases n,
{
    if n > 0 {
        lemma_told_of_run(a, b, n - 1, run_id);
        assert((a + b)[a.len() + n - 1] == b[n - 1]);
    } else {
        lemma_untold(a + b, a.len() as int, run_id);
    }
}

proof fn lemma_untold(list: Seq<RecordModel>, n: int, run_id: Seq<char>)
    requires
        0 <= n <= list.len(),
        none_of_run(list.take(n), run_id),
    ensures
        ran_count(list, n, run_id) == 0,
        skipped_count(list, n, run_id) == 0,
        run_notes(list, n, run_id) == Seq::<Seq<char>>::empty(),
    decreases n,
{
    if n > 0 {
        assert forall|k: int| 0 <= k < list.take(n - 1).len() implies (#[trigger] list.take(
            n - 1,
        )[k]).run_id != run_id by {
            assert(list.take(n - 1)[k] == list.take(n)[k]);
        }
        lemma_untold(list, n - 1, run_id);
        assert(list.take(n)[n - 1] == list[n - 1]);
    }
}

/// Of the records of a run, each is either counted as done or told of in a
/// note.
proof fn lemma_each_is_told(list: Seq<RecordModel>, n: int, run_id: Seq<char>)
    requires
        0 <= n <= list.len(),
        of_run(list, run_id),
    ensures
        ran_count(list, n, run_id) + run_notes(list, n, run_id).len() == n,
        forall|k: int|
            0 <= k < n && (was_skipped(#[trigger] list[k]) || went_wrong(list[k])) ==> run_notes(
                list,
                n,
                run_id,
            ).contains(note(list[k])),
    decreases n,
{
    if n > 0 {
        lemma_each_is_told(list, n - 1, run_id);
        let before = run_notes(list, n - 1, run_id);
        let now = run_notes(list, n, run_id);
        let last = list[n - 1];
        assert(last.run_id == run_id);
        assert forall|k: int|
            0 <= k < n && (was_skipped(#[trigger] list[k]) || went_wrong(
                list[k],
            )) implies now.contains(note(list[k])) by {
            if k < n - 1 {
                let i = choose|i: int| 0 <= i < before.len() && before[i] == note(list[k]);
                assert(now[i] == before[i]);
            } else {
                assert(now[now.len() - 1] == note(last));
            }
        }
    }
}

/// A journal that gives back what it was handed tells of a run in full, and
/// of nothing else: what is counted and noted is what the run itself put on
/// record, everything that was skipped or went wrong has its note, and
/// everything else is counted as done.
pub proof fn law_nothing_is_left_untold(
    earlier: Seq<RecordModel>,
    entries: (Seq<Entry>, Seq<Entry>),
    reading: Reading,
    run_id: Seq<char>,
)
    requires
        goes_on(entries),
        reading.after == entries.1.len(),
        kept_in_full(earlier, entries, reading, run_id),
        of_run(handed(since(entries)), run_id),
    ensures
        ({
            let told = reading.found->Ok_0;
            let n = told.len() as int;
            let news = handed(since(entries));
            let m = news.len() as int;
            &&& reading.found is Ok
            &&& ran_count(told, n, run_id) == ran_count(news, m, run_id)
            &&& skipped_count(told, n, run_id) == skipped_count(news, m, run_id)
            &&& run_notes(told, n, run_id) == run_notes(news, m, run_id)
            &&& notes_below(told, run_id) == notes_below(news, run_id)
            &&& ran_count(told, n, run_id) + run_notes(told, n, run_id).len() == m
            &&& forall|k: int|
                0 <= k < m && (was_skipped(#[trigger] news[k]) || went_wrong(news[k]))
                    ==> run_notes(told, n, run_id).contains(note(news[k]))
        }),
{
    let before = entries.0;
    let news = since(entries);
    assert(entries.1.take(reading.after as int) =~= before + news);
    lemma_written_adds(before, news);
    lemma_all_written(news);
    let list = handed(news);
    let old_ones = earlier + written(before);
    assert(earlier + (written(before) + list) =~= old_ones + list);
    assert forall|k: int| 0 <= k < old_ones.len() implies (#[trigger] old_ones[k]).run_id
        != run_id by {
        if k < earlier.len() {
            assert(old_ones[k] == earlier[k]);
        } else {
            let i = k - earlier.len();
            lemma_written_was_handed(before, i);
            let j = choose|j: int|
                0 <= j < before.len() && (#[trigger] before[j]).record == written(before)[i];
            assert(handed(before)[j] == before[j].record);
        }
    }
    lemma_told_of_run(old_ones, list, list.len() as int, run_id);
    lemma_each_is_told(list, list.len() as int, run_id);
}

pub proof fn lemma_performed_is_of_run(
    list: Seq<StepModel>,
    n: int,
    acts: Seq<Act>,
    entries: Seq<Entry>,
    command: Seq<char>,
    run_id: Seq<char>,
    dry_run: bool,
)
    requires
        performed(list, n, acts, entries, command, run_id, dry_run),
    ensures
        of_run(handed(entries), run_id),
{
    let all = handed(entries);
    assert forall|k: int| 0 <= k < all.len() implies (#[trigger] all[k]).run_id == run_id by {
        assert(all[k] == entries[k].record);
    }
}

pub proof fn lemma_performed_with_helper_is_of_run(
    plan: Seq<StepModel>,
    ops: Seq<OpModel>,
    acts: Seq<Act>,
    entries: Seq<Entry>,
    run_id: Seq<char>,
    dry_run: bool,
)
    requires
        performed_with_helper(plan, ops, acts, entries, run_id, dry_run),
    ensures
        of_run(handed(entries), run_id),
{
    let n = plan.len() as int;
    if ops.len() == 0 {
        lemma_performed_is_of_run(plan, n, acts, entries, "clean"@, run_id, dry_run);
    } else {
        let first = entries.take(n);
        lemma_performed_is_of_run(
            plan,
            n,
            acts.drop_last(),
            first,
            "clean"@,
            run_id,
            dry_run,
        );
        let all = handed(entries);
        assert forall|k: int| 0 <= k < all.len() implies (#[trigger] all[k]).run_id == run_id by {
            if k < n {
                assert(handed(first)[k] == first[k].record);
            } else {
                assert(entries[n + (k - n)].record.run_id == run_id);
            }
        }
    }
}

proof fn lemma_same_counts(a: Seq<RecordModel>, b: Seq<RecordModel>, n: int, run_id: Seq<char>)
    requires
        0 <= n <= a.len() <= b.len(),
        forall|i: int| 0 <= i < n ==> a[i] == b[i],
    ensures
        ran_count(a, n, run_id) == ran_count(b, n, run_id),
        skipped_count(a, n, run_id) == skipped_count(b, n, run_id),
        run_notes(a, n, run_id) == run_notes(b, n, run_id),
    decreases n,
{
    if n > 0 {
        lemma_same_counts(a, b, n - 1, run_id);
    }
}

/// Each record of a run counts once: as skipped or not done where it says so,
/// with a note on what and why, and as done otherwise. Records of other runs
/// do not count.
pub proof fn law_each_record_counts_once(
    list: Seq<RecordModel>,
    r: RecordModel,
    run_id: Seq<char>,
    rest: Seq<char>,
)
    ensures
        ({
            let n = list.len() as int;
            let more = list.push(r);
            let ran = ran_count(list, n, run_id);
            let skipped = skipped_count(list, n, run_id);
            let notes = run_notes(list, n, run_id);
            let told = "note: "@ + r.rule + " — "@ + r.outcome;
            &&& r.run_id != run_id ==> {
                &&& ran_count(more, n + 1, run_id) == ran
                &&& skipped_count(more, n + 1, run_id) == skipped
                &&& run_notes(more, n + 1, run_id) == notes
            }
            &&& r.run_id == run_id && r.outcome == "skipped"@ + rest ==> {
                &&& ran_count(more, n + 1, run_id) == ran
                &&& skipped_count(more, n + 1, run_id) == skipped + 1
                &&& run_notes(more, n + 1, run_id) == notes.push(told)
            }
            &&& r.run_id == run_id && (r.outcome == "error"@ + rest || r.outcome == "refused"@
                + rest) ==> {
                &&& ran_count(more, n + 1, run_id) == ran
                &&& skipped_count(more, n + 1, run_id) == skipped
                &&& run_notes(more, n + 1, run_id) == notes.push(told)
            }
            &&& r.run_id == run_id && r.outcome.len() > 0 && r.outcome[0] != 's'
                && r.outcome[0] != 'e' && r.outcome[0] != 'r' ==> {
                &&& ran_count(more, n + 1, run_id) == ran + 1
                &&& skipped_count(more, n + 1, run_id) == skipped
                &&& run_notes(more, n + 1, run_id) == notes
            }
        }),
{
    let n = list.len() as int;
    let more = list.push(r);
    lemma_same_counts(list, more, n, run_id);
    assert(more[n] == r);
    reveal_strlit("skipped");
    reveal_strlit("error");
    reveal_strlit("refused");
    let o = r.outcome;
    lemma_first_of(o, "skipped"@);
    lemma_first_of(o, "error"@);
    lemma_first_of(o, "refused"@);
    assert("skipped"@[0] == 's' && "error"@[0] == 'e' && "refused"@[0] == 'r');
    if o == "skipped"@ + rest {
        assert(o.subrange(0, 7) =~= "skipped"@);
    } else if o == "error"@ + rest {
        assert(o.subrange(0, 5) =~= "error"@);
    } else if o == "refused"@ + rest {
        assert(o.subrange(0, 7) =~= "refused"@);
    }
}

proof fn lemma_first_of(s: Seq<char>, p: Seq<char>)
    requires
        p.len() > 0,
    ensures
        text::starts_with(s, p) ==> s.len() > 0 && s[0] == p[0],
{
    if text::starts_with(s, p) {
        assert(s.subrange(0, p.len() as int)[0] == s[0]);
    }
}

/// What can be selected adds its bytes to the total, and what cannot adds
/// nothing.
pub proof fn law_only_selectable_bytes_add_up(
    list: Seq<CandidateModel>,
    c: CandidateModel,
    from: u64,
)
    ensures
        ({
            let n = list.len() as int;
            let old = selectable_bytes(list, n, from);
            let new = selectable_bytes(list.push(c), n + 1, from);
            &&& selectable_bytes(list, 0, from) == from
            &&& !c.selectable ==> new == old
            &&& c.selectable && old + c.bytes <= u64::MAX ==> new == old + c.bytes
            &&& c.selectable && old + c.bytes > u64::MAX ==> new == u64::MAX
        }),
{
    lemma_same_bytes(list, list.push(c), list.len() as int, from);
    assert(list.push(c)[list.len() as int] == c);
}

proof fn lemma_same_bytes(a: Seq<CandidateModel>, b: Seq<CandidateModel>, n: int, from: u64)
    requires
        0 <= n <= a.len() <= b.len(),
        forall|i: int| 0 <= i < n ==> a[i] == b[i],
    ensures
        selectable_bytes(a, n, from) == selectable_bytes(b, n, from),
    decreases n,
{
    if n > 0 {
        lemma_same_bytes(a, b, n - 1, from);
    }
}

/// What a group leaves out is told with the reason, and every note is shown.
pub proof fn law_what_is_left_out_is_shown(
    list: Seq<(Seq<char>, Seq<char>)>,
    n: int,
    i: int,
    notes: Seq<Seq<char>>,
    m: int,
    j: int,
)
    requires
        0 <= i < n <= list.len(),
        0 <= j < m <= notes.len(),
    ensures
        text::contains(
            skip_lines(list, n),
            "  "@ + list[i].0 + "  skipped: "@ + list[i].1 + "\n"@,
        ),
        text::contains(note_lines(notes, m), notes[j]),
    decreases n + m,
{
    let line = "  "@ + list[n - 1].0 + "  skipped: "@ + list[n - 1].1 + "\n"@;
    let want = "  "@ + list[i].0 + "  skipped: "@ + list[i].1 + "\n"@;
    if i < n - 1 {
        law_what_is_left_out_is_shown(list, n - 1, i, notes, m, j);
    } else if j < m - 1 {
        law_what_is_left_out_is_shown(list, n, i, notes, m - 1, j);
    }
    text::lemma_contains_on(want);
    text::lemma_contains_more(skip_lines(list, n - 1), line, want);
    if j == m - 1 {
        text::lemma_contains_on(notes[j]);
        text::lemma_contains_more(note_lines(notes, m - 1) + "\n  "@, notes[m - 1], notes[j]);
    } else {
        lemma_note_shown(notes, m, j);
    }
}

proof fn lemma_note_shown(notes: Seq<Seq<char>>, m: int, j: int)
    requires
        0 <= j < m <= notes.len(),
    ensures
        text::contains(note_lines(notes, m), notes[j]),
    decreases m,
{
    text::lemma_contains_on(notes[j]);
    if j < m - 1 {
        lemma_note_shown(notes, m - 1, j);
        assert(text::contains(note_lines(notes, m - 1) + "\n  "@, notes[j]));
    }
    text::lemma_contains_more(note_lines(notes, m - 1) + "\n  "@, notes[m - 1], notes[j]);
    if j < m - 1 {
        assert(text::contains(note_lines(notes, m - 1) + "\n  "@ + notes[m - 1], notes[j]));
    }
}

/// The heading of a group tells its risk, and whether it takes root's power.
pub proof fn law_headings_tell_the_risk(g: GroupModel)
    ensures
        g.risk == Risk::Safe && !g.requires_sudo ==> heading(g) == g.title + " [safe]\n"@,
        g.risk == Risk::Moderate && !g.requires_sudo ==> heading(g) == g.title
            + " [moderate]\n"@,
        g.risk == Risk::Risky && !g.requires_sudo ==> heading(g) == g.title + " [risky]\n"@,
        g.risk == Risk::Safe && g.requires_sudo ==> heading(g) == g.title + " [safe, sudo]\n"@,
        g.risk == Risk::Moderate && g.requires_sudo ==> heading(g) == g.title
            + " [moderate, sudo]\n"@,
        g.risk == Risk::Risky && g.requires_sudo ==> heading(g) == g.title
            + " [risky, sudo]\n"@,
{
    reveal_strlit(" [");
    reveal_strlit("safe");
    reveal_strlit("moderate");
    reveal_strlit("risky");
    reveal_strlit(", sudo");
    reveal_strlit("");
    reveal_strlit("]\n");
    if g.requires_sudo {
        reveal_strlit(" [safe, sudo]\n");
        reveal_strlit(" [moderate, sudo]\n");
        reveal_strlit(" [risky, sudo]\n");
        assert(" [safe, sudo]\n"@ =~= " ["@ + "safe"@ + ", sudo"@ + "]\n"@);
        assert(" [moderate, sudo]\n"@ =~= " ["@ + "moderate"@ + ", sudo"@ + "]\n"@);
        assert(" [risky, sudo]\n"@ =~= " ["@ + "risky"@ + ", sudo"@ + "]\n"@);
        assert(heading(g) =~= g.title + (" ["@ + risk_tag(g.risk) + ", sudo"@ + "]\n"@));
    } else {
        reveal_strlit(" [safe]\n");
        reveal_strlit(" [moderate]\n");
        reveal_strlit(" [risky]\n");
        assert(" [safe]\n"@ =~= " ["@ + "safe"@ + "]\n"@);
        assert(" [moderate]\n"@ =~= " ["@ + "moderate"@ + "]\n"@);
        assert(" [risky]\n"@ =~= " ["@ + "risky"@ + "]\n"@);
        assert(heading(g) =~= g.title + (" ["@ + risk_tag(g.risk) + "]\n"@));
    }
}

/// There is something to tell as soon as any group has a candidate or a note,
/// and nothing where none has.
pub proof fn law_any_find_is_news(list: Seq<GroupModel>, i: int)
    ensures
        0 <= i < list.len() && (list[i].candidates.len() > 0 || list[i].skipped.len() > 0)
            ==> any_news(list),
        any_news(list) ==> exists|k: int|
            0 <= k < list.len() && ((#[trigger] list[k]).candidates.len() > 0
                || list[k].skipped.len() > 0),
{
    if 0 <= i < list.len() && (list[i].candidates.len() > 0 || list[i].skipped.len() > 0) {
        assert(has_news(list[i]));
    }
    if any_news(list) {
        let k = choose|k: int| 0 <= k < list.len() && has_news(#[trigger] list[k]);
        assert(list[k].candidates.len() > 0 || list[k].skipped.len() > 0);
    }
}

} // verus!

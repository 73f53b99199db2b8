//! `history`: what was done, run by run.

use vstd::prelude::*;

use crate::output::{human, humanize_bytes};
use crate::safety::journal::{records, Record, RecordModel};
use crate::text;

verus! {

broadcast use vstd::seq::group_seq_axioms;

/// The runs among the first `n` records, in the order they were first seen.
pub open spec fn runs(list: Seq<RecordModel>, n: int) -> Seq<Seq<char>>
    decreases n,
{
    if n <= 0 {
        Seq::empty()
    } else {
        let before = runs(list, n - 1);
        if before.contains(list[n - 1].run_id) {
            before
        } else {
            before.push(list[n - 1].run_id)
        }
    }
}

fn run_order(list: &Vec<Record>) -> (r: Vec<String>)
    ensures
        text::texts(r@) == runs(records(list@), list@.len() as int),
{
    let ghost all = records(list@);
    let mut out: Vec<String> = Vec::new();
    let mut i: usize = 0;
    assert(text::texts(out@) =~= Seq::empty());
    while i < list.len()
        invariant
            i <= list.len(),
            all == records(list@),
            text::texts(out@) == runs(all, i as int),
        decreases list.len() - i,
    {
        assert(all[i as int] == list@[i as int]@);
        let ghost had = out@;
        if !text::holds(&out, list[i].run_id.as_str()) {
            let id = list[i].run_id.clone();
            out.push(id);
            assert(text::texts(out@) =~= text::texts(had).push(id@));
        }
        i += 1;
    }
    out
}

/// The date of a time: what stands before the `T`.
pub open spec fn date(ts: Seq<char>) -> Seq<char> {
    ts.take(text::position(ts, 'T', 0))
}

fn date_of(ts: &str) -> (r: String)
    ensures
        r@ == date(ts@),
{
    let v = text::chars_of(ts);
    let k = text::find_char(&v, 'T', 0);
    proof {
        text::lemma_position(ts@, 'T', 0);
    }
    let r = text::piece(&v, 0, k);
    assert(r@ =~= date(ts@));
    r
}

/// What is told of a record; with its command and paths where one run was
/// asked for.
pub open spec fn record_text(r: RecordModel, detail: bool) -> Seq<char> {
    "  "@ + r.rule + "  "@ + human(r.bytes_freed as nat) + "  "@ + r.outcome + "\n"@ + (
    match r.argv {
        Some(argv) if detail => "    argv: "@ + text::join(argv, " "@) + "\n"@,
        _ => ""@,
    }) + (match r.paths {
        Some(paths) if detail => "    paths: "@ + text::join(paths, ", "@) + "\n"@,
        _ => ""@,
    })
}

fn record_text_of(r: &Record, detail: bool) -> (out: String)
    ensures
        out@ == record_text(r@, detail),
{
    let size = humanize_bytes(r.bytes_freed);
    let mut out = "  ".to_owned();
    out.append(r.rule.as_str());
    out.append("  ");
    out.append(size.as_str());
    out.append("  ");
    out.append(r.outcome.as_str());
    out.append("\n");
    let argv = match &r.argv {
        Some(list) if detail => {
            let joined = text::join_texts(list, " ");
            text::concat3("    argv: ", joined.as_str(), "\n")
        },
        _ => "".to_owned(),
    };
    let paths = match &r.paths {
        Some(list) if detail => {
            let joined = text::join_texts(list, ", ");
            text::concat3("    paths: ", joined.as_str(), "\n")
        },
        _ => "".to_owned(),
    };
    out.append(argv.as_str());
    out.append(paths.as_str());
    out
}

/// The records of a run among the first `n`.
pub open spec fn run_lines(
    list: Seq<RecordModel>,
    n: int,
    run_id: Seq<char>,
    detail: bool,
) -> Seq<char>
    decreases n,
{
    if n <= 0 {
        Seq::empty()
    } else if list[n - 1].run_id == run_id {
        run_lines(list, n - 1, run_id, detail) + record_text(list[n - 1], detail)
    } else {
        run_lines(list, n - 1, run_id, detail)
    }
}

/// The first line of a run, by its first record.
pub open spec fn run_heading(first: RecordModel) -> Seq<char> {
    date(first.ts) + "  "@ + first.cmd + "  run "@ + first.run_id + (if first.dry_run {
        "  [dry-run]"@
    } else {
        ""@
    }) + "\n"@
}

/// The heading of a run, where its first record is among the first `n`.
pub open spec fn heading_in(list: Seq<RecordModel>, n: int, run_id: Seq<char>) -> Seq<
    char,
>
    decreases n,
{
    if n <= 0 {
        Seq::empty()
    } else {
        let before = heading_in(list, n - 1, run_id);
        if before.len() == 0 && list[n - 1].run_id == run_id {
            run_heading(list[n - 1])
        } else {
            before
        }
    }
}

pub open spec fn run_text(
    list: Seq<RecordModel>,
    run_id: Seq<char>,
    detail: bool,
) -> Seq<char> {
    heading_in(list, list.len() as int, run_id) + run_lines(
        list,
        list.len() as int,
        run_id,
        detail,
    )
}

fn run_text_of(list: &Vec<Record>, run_id: &str, detail: bool) -> (r: String)
    ensures
        r@ == run_text(records(list@), run_id@, detail),
{
    let ghost all = records(list@);
    let mut head = "".to_owned();
    let mut body = "".to_owned();
    proof {
        reveal_strlit("");
        reveal_strlit("\n");
    }
    let mut i: usize = 0;
    assert(head@ =~= Seq::empty());
    assert(body@ =~= Seq::empty());
    while i < list.len()
        invariant
            i <= list.len(),
            all == records(list@),
            head@ == heading_in(all, i as int, run_id@),
            body@ == run_lines(all, i as int, run_id@, detail),
        decreases list.len() - i,
    {
        let r = &list[i];
        assert(all[i as int] == r@);
        if text::same(r.run_id.as_str(), run_id) {
            if head.as_str().is_empty() {
                let day = date_of(r.ts.as_str());
                let marker = if r.dry_run {
                    "  [dry-run]"
                } else {
                    ""
                };
                let mut line = day;
                line.append("  ");
                line.append(r.cmd.as_str());
                line.append("  run ");
                line.append(run_id);
                line.append(marker);
                line.append("\n");
                head = line;
            }
            let text_of = record_text_of(r, detail);
            body.append(text_of.as_str());
        }
        i += 1;
    }
    text::concat2(head.as_str(), body.as_str())
}

/// The text without the line feeds at its end.
pub open spec fn without_feeds(s: Seq<char>) -> Seq<char>
    decreases s.len(),
{
    if s.len() > 0 && s.last() == '\n' {
        without_feeds(s.drop_last())
    } else {
        s
    }
}

fn strip_feeds(s: &str) -> (r: String)
    ensures
        r@ == without_feeds(s@),
{
    let v = text::chars_of(s);
    let mut end: usize = v.len();
    assert(v@.take(end as int) =~= s@);
    while end > 0 && v[end - 1] == '\n'
        invariant
            end <= v.len(),
            v@ == s@,
            without_feeds(s@) == without_feeds(v@.take(end as int)),
        decreases end,
    {
        assert(v@.take(end as int).drop_last() =~= v@.take(end - 1));
        end -= 1;
    }
    let r = text::piece(&v, 0, end);
    assert(r@ =~= v@.take(end as int));
    r
}

/// The texts of the runs that were asked for, among the first `n`.
pub open spec fn runs_text(
    list: Seq<RecordModel>,
    ids: Seq<Seq<char>>,
    n: int,
    wanted: Option<Seq<char>>,
) -> Seq<char>
    decreases n,
{
    if n <= 0 {
        Seq::empty()
    } else {
        let before = runs_text(list, ids, n - 1, wanted);
        match wanted {
            Some(w) if ids[n - 1] != w => before,
            _ => before + run_text(list, ids[n - 1], wanted is Some),
        }
    }
}

pub open spec fn opt_str(o: Option<&str>) -> Option<Seq<char>> {
    match o {
        Some(s) => Some(s@),
        None => None,
    }
}

/// All runs, or one in full detail.
pub fn render(list: &Vec<Record>, run_filter: Option<&str>) -> (r: String)
    ensures
        list@.len() == 0 ==> r@ == "No operations recorded yet."@,
        list@.len() > 0 ==> r@ == without_feeds(
            runs_text(
                records(list@),
                runs(records(list@), list@.len() as int),
                runs(records(list@), list@.len() as int).len() as int,
                opt_str(run_filter),
            ),
        ),
{
    if list.len() == 0 {
        return "No operations recorded yet.".to_owned();
    }
    let ghost all = records(list@);
    let ids = run_order(list);
    let ghost order = text::texts(ids@);
    let mut out = "".to_owned();
    proof {
        reveal_strlit("");
    }
    let mut i: usize = 0;
    assert(out@ =~= Seq::empty());
    while i < ids.len()
        invariant
            i <= ids.len(),
            all == records(list@),
            order == text::texts(ids@),
            out@ == runs_text(all, order, i as int, opt_str(run_filter)),
        decreases ids.len() - i,
    {
        assert(order[i as int] == ids@[i as int]@);
        let wanted = match run_filter {
            Some(w) => text::same(ids[i].as_str(), w),
            None => true,
        };
        if wanted {
            let part = run_text_of(list, ids[i].as_str(), run_filter.is_some());
            out.append(part.as_str());
        }
        i += 1;
    }
    strip_feeds(out.as_str())
}

/// The records that `--json` prints.
pub fn of_run(list: &Vec<Record>, run_filter: Option<&str>) -> (r: Vec<usize>)
    ensures
        r@ == wanted_places(records(list@), list@.len() as int, opt_str(run_filter)),
{
    let ghost all = records(list@);
    let mut out: Vec<usize> = Vec::new();
    let mut i: usize = 0;
    assert(out@ =~= Seq::empty());
    while i < list.len()
        invariant
            i <= list.len(),
            all == records(list@),
            out@ == wanted_places(all, i as int, opt_str(run_filter)),
        decreases list.len() - i,
    {
        assert(all[i as int] == list@[i as int]@);
        let wanted = match run_filter {
            Some(w) => text::same(list[i].run_id.as_str(), w),
            None => true,
        };
        if wanted {
            out.push(i);
        }
        i += 1;
    }
    out
}

/// The places of the records that were asked for, among the first `n`.
pub open spec fn wanted_places(
    list: Seq<RecordModel>,
    n: int,
    wanted: Option<Seq<char>>,
) -> Seq<usize>
    decreases n,
{
    if n <= 0 {
        Seq::empty()
    } else {
        let before = wanted_places(list, n - 1, wanted);
        match wanted {
            Some(w) if list[n - 1].run_id != w => before,
            _ => before.push((n - 1) as usize),
        }
    }
}

// ------------------------------------------------------------------------- laws

/// Every record belongs to exactly one run that is told of: its run is among
/// the runs, and no run is told of twice.
pub proof fn law_every_run_is_told_once(list: Seq<RecordModel>, n: int)
    requires
        0 <= n <= list.len(),
    ensures
        forall|i: int| 0 <= i < n ==> runs(list, n).contains((#[trigger] list[i]).run_id),
        runs(list, n).no_duplicates(),
    decreases n,
{
    if n > 0 {
        law_every_run_is_told_once(list, n - 1);
        let before = runs(list, n - 1);
        let now = runs(list, n);
        let id = list[n - 1].run_id;
        if !before.contains(id) {
            assert(now[now.len() - 1] == id);
        }
        assert forall|i: int| 0 <= i < n implies now.contains((#[trigger] list[i]).run_id) by {
            if i < n - 1 {
                assert(before.contains(list[i].run_id));
                let k = choose|k: int| 0 <= k < before.len() && before[k] == list[i].run_id;
                assert(now[k] == before[k]);
            }
        }
    }
}

/// The line of a record: its rule, what it freed, and how it went.
pub open spec fn record_line(r: RecordModel) -> Seq<char> {
    "  "@ + r.rule + "  "@ + human(r.bytes_freed as nat) + "  "@ + r.outcome
}

proof fn lemma_record_line(r: RecordModel, detail: bool)
    ensures
        text::contains(record_text(r, detail), record_line(r)),
        detail && r.argv is Some ==> text::contains(
            record_text(r, detail),
            "    argv: "@ + text::join(r.argv->0, " "@),
        ),
        detail && r.paths is Some ==> text::contains(
            record_text(r, detail),
            "    paths: "@ + text::join(r.paths->0, ", "@),
        ),
{
    let line = record_line(r);
    let a = match r.argv {
        Some(argv) if detail => "    argv: "@ + text::join(argv, " "@) + "\n"@,
        _ => ""@,
    };
    let b = match r.paths {
        Some(paths) if detail => "    paths: "@ + text::join(paths, ", "@) + "\n"@,
        _ => ""@,
    };
    let head = line + "\n"@;
    assert(record_text(r, detail) == head + a + b);
    text::lemma_contains_on(line);
    assert(text::contains(head, line));
    assert(text::contains(head + a, line));
    if detail && r.argv is Some {
        let p = "    argv: "@ + text::join(r.argv->0, " "@);
        text::lemma_contains_on(p);
        assert(text::contains(a, p));
        text::lemma_contains_more(head, a, p);
        assert(text::contains(head + a + b, p));
    }
    if detail && r.paths is Some {
        let p = "    paths: "@ + text::join(r.paths->0, ", "@);
        text::lemma_contains_on(p);
        assert(text::contains(b, p));
        text::lemma_contains_more(head + a, b, p);
    }
}

proof fn lemma_run_holds(
    list: Seq<RecordModel>,
    n: int,
    id: Seq<char>,
    detail: bool,
    k: int,
    p: Seq<char>,
)
    requires
        0 <= k < n <= list.len(),
        list[k].run_id == id,
        text::contains(record_text(list[k], detail), p),
    ensures
        text::contains(run_lines(list, n, id, detail), p),
    decreases n,
{
    let before = run_lines(list, n - 1, id, detail);
    if k < n - 1 {
        lemma_run_holds(list, n - 1, id, detail, k, p);
    }
    text::lemma_contains_more(before, record_text(list[n - 1], detail), p);
}

proof fn lemma_runs_hold(
    list: Seq<RecordModel>,
    ids: Seq<Seq<char>>,
    n: int,
    wanted: Option<Seq<char>>,
    i: int,
    p: Seq<char>,
)
    requires
        0 <= i < n <= ids.len(),
        wanted is None || wanted == Some(ids[i]),
        text::contains(run_text(list, ids[i], wanted is Some), p),
    ensures
        text::contains(runs_text(list, ids, n, wanted), p),
    decreases n,
{
    let before = runs_text(list, ids, n - 1, wanted);
    if i < n - 1 {
        lemma_runs_hold(list, ids, n - 1, wanted, i, p);
    }
    text::lemma_contains_more(before, run_text(list, ids[n - 1], wanted is Some), p);
}

proof fn lemma_run_is_known(list: Seq<RecordModel>, n: int, k: int)
    requires
        0 <= k < n <= list.len(),
    ensures
        runs(list, n).contains(list[k].run_id),
    decreases n,
{
    let before = runs(list, n - 1);
    let now = runs(list, n);
    let id = list[k].run_id;
    if k < n - 1 {
        lemma_run_is_known(list, n - 1, k);
        let i = choose|i: int| 0 <= i < before.len() && before[i] == id;
        assert(now[i] == id);
    } else if !before.contains(id) {
        assert(now[before.len() as int] == id);
    }
}

proof fn lemma_feeds_go(s: Seq<char>, p: Seq<char>)
    requires
        text::contains(s, p),
        p.len() > 0,
        p.last() != '\n',
    ensures
        text::contains(without_feeds(s), p),
    decreases s.len(),
{
    if s.len() > 0 && s.last() == '\n' {
        let k = choose|k: int| text::at(s, p, k);
        let t = s.drop_last();
        assert(s.subrange(k, k + p.len())[p.len() - 1] == s[k + p.len() - 1]);
        assert(k + p.len() < s.len());
        assert(t.subrange(k, k + p.len()) =~= s.subrange(k, k + p.len()));
        assert(text::at(t, p, k));
        lemma_feeds_go(t, p);
    }
}

/// Every record is told in full: all of them where no run is asked for, and
/// those of that run, with their commands and paths, where one is.
pub proof fn law_every_record_is_told(
    list: Seq<RecordModel>,
    wanted: Option<Seq<char>>,
    k: int,
)
    requires
        0 <= k < list.len(),
        wanted is None || wanted == Some(list[k].run_id),
    ensures
        ({
            let ids = runs(list, list.len() as int);
            let out = without_feeds(runs_text(list, ids, ids.len() as int, wanted));
            let argv = "    argv: "@ + text::join(list[k].argv->0, " "@);
            let paths = "    paths: "@ + text::join(list[k].paths->0, ", "@);
            &&& list[k].outcome.len() > 0 && list[k].outcome.last() != '\n' ==> text::contains(
                out,
                record_line(list[k]),
            )
            &&& wanted is Some && list[k].argv is Some && argv.last() != '\n' ==> text::contains(
                out,
                argv,
            )
            &&& wanted is Some && list[k].paths is Some && paths.last() != '\n'
                ==> text::contains(out, paths)
        }),
{
    let ids = runs(list, list.len() as int);
    let detail = wanted is Some;
    let id = list[k].run_id;
    let whole = runs_text(list, ids, ids.len() as int, wanted);
    lemma_run_is_known(list, list.len() as int, k);
    let i = choose|i: int| 0 <= i < ids.len() && ids[i] == id;
    lemma_record_line(list[k], detail);
    let line = record_line(list[k]);
    let argv = "    argv: "@ + text::join(list[k].argv->0, " "@);
    let paths = "    paths: "@ + text::join(list[k].paths->0, ", "@);
    lemma_told_in_runs(list, ids, wanted, i, k, line);
    reveal_strlit("    argv: ");
    reveal_strlit("    paths: ");
    if list[k].outcome.len() > 0 && list[k].outcome.last() != '\n' {
        assert(line.last() == list[k].outcome.last());
        lemma_feeds_go(whole, line);
    }
    if detail && list[k].argv is Some && argv.last() != '\n' {
        lemma_told_in_runs(list, ids, wanted, i, k, argv);
        lemma_feeds_go(whole, argv);
    }
    if detail && list[k].paths is Some && paths.last() != '\n' {
        lemma_told_in_runs(list, ids, wanted, i, k, paths);
        lemma_feeds_go(whole, paths);
    }
}

proof fn lemma_told_in_runs(
    list: Seq<RecordModel>,
    ids: Seq<Seq<char>>,
    wanted: Option<Seq<char>>,
    i: int,
    k: int,
    p: Seq<char>,
)
    requires
        0 <= k < list.len(),
        0 <= i < ids.len(),
        ids[i] == list[k].run_id,
        wanted is None || wanted == Some(ids[i]),
        text::contains(record_text(list[k], wanted is Some), p),
    ensures
        text::contains(runs_text(list, ids, ids.len() as int, wanted), p),
{
    let detail = wanted is Some;
    let lines = run_lines(list, list.len() as int, ids[i], detail);
    lemma_run_holds(list, list.len() as int, ids[i], detail, k, p);
    text::lemma_contains_more(heading_in(list, list.len() as int, ids[i]), lines, p);
    lemma_runs_hold(list, ids, ids.len() as int, wanted, i, p);
}

/// A run that is asked for is told alone.
pub proof fn law_only_the_run_asked_for_is_told(
    list: Seq<RecordModel>,
    ids: Seq<Seq<char>>,
    n: int,
    id: Seq<char>,
)
    requires
        0 <= n <= ids.len(),
        ids.no_duplicates(),
    ensures
        ids.take(n).contains(id) ==> runs_text(list, ids, n, Some(id)) == run_text(
            list,
            id,
            true,
        ),
        !ids.take(n).contains(id) ==> runs_text(list, ids, n, Some(id)).len() == 0,
    decreases n,
{
    if n > 0 {
        law_only_the_run_asked_for_is_told(list, ids, n - 1, id);
        let a = ids.take(n - 1);
        let b = ids.take(n);
        if ids[n - 1] == id {
            assert(b[n - 1] == id);
            assert(!a.contains(id)) by {
                if a.contains(id) {
                    let i = choose|i: int| 0 <= i < a.len() && a[i] == id;
                    assert(ids[i] == ids[n - 1]);
                }
            }
            assert(runs_text(list, ids, n, Some(id)) =~= run_text(list, id, true));
        } else {
            if a.contains(id) {
                let i = choose|i: int| 0 <= i < a.len() && a[i] == id;
                assert(b[i] == id);
            }
            if b.contains(id) {
                let i = choose|i: int| 0 <= i < b.len() && b[i] == id;
                assert(a[i] == id);
            }
        }
    }
}

/// The date of a run is what stands before the `T` of its first time.
pub proof fn law_dates_come_before_the_time(day: Seq<char>, time: Seq<char>)
    requires
        !day.contains('T'),
    ensures
        date(day + "T"@ + time) == day,
{
    reveal_strlit("T");
    let s = day + "T"@ + time;
    assert forall|i: int| 0 <= i < day.len() implies s[i] != 'T' by {
        assert(s[i] == day[i]);
        assert(day.contains(day[i]));
    }
    assert(s[day.len() as int] == 'T');
    lemma_position(s, 'T', 0, day.len() as int);
    assert(s.take(day.len() as int) =~= day);
}

proof fn lemma_position(s: Seq<char>, c: char, from: int, k: int)
    requires
        0 <= from <= k < s.len(),
        s[k] == c,
        forall|i: int| from <= i < k ==> s[i] != c,
    ensures
        text::position(s, c, from) == k,
    decreases k - from,
{
    if from < k {
        lemma_position(s, c, from + 1, k);
    }
}

/// The places told for a run are those of its records, in order; where no run
/// is asked for, all of them.
pub proof fn law_places_are_of_the_run(
    list: Seq<RecordModel>,
    n: int,
    wanted: Option<Seq<char>>,
    k: int,
)
    requires
        0 <= n <= list.len(),
        list.len() <= usize::MAX,
        0 <= k < n,
    ensures
        wanted_places(list, n, wanted).contains(k as usize) <==> wanted is None || wanted == Some(
            list[k].run_id,
        ),
    decreases n,
{
    let before = wanted_places(list, n - 1, wanted);
    let now = wanted_places(list, n, wanted);
    lemma_places_below(list, n - 1, wanted);
    if k < n - 1 {
        law_places_are_of_the_run(list, n - 1, wanted, k);
        if before.contains(k as usize) {
            let i = choose|i: int| 0 <= i < before.len() && before[i] == k as usize;
            assert(now[i] == k as usize);
        }
        if now.contains(k as usize) {
            let i = choose|i: int| 0 <= i < now.len() && now[i] == k as usize;
            assert(i < before.len());
            assert(before[i] == k as usize);
        }
    } else {
        if wanted is None || wanted == Some(list[k].run_id) {
            assert(now[before.len() as int] == k as usize);
        }
        if now.contains(k as usize) {
            let i = choose|i: int| 0 <= i < now.len() && now[i] == k as usize;
            if i < before.len() {
                assert(before[i] < n - 1);
            }
        }
    }
}

proof fn lemma_places_below(list: Seq<RecordModel>, n: int, wanted: Option<Seq<char>>)
    requires
        0 <= n <= list.len(),
        list.len() <= usize::MAX,
    ensures
        forall|i: int|
            0 <= i < wanted_places(list, n, wanted).len() ==> (#[trigger] wanted_places(
                list,
                n,
                wanted,
            )[i]) < n,
    decreases n,
{
    if n > 0 {
        lemma_places_below(list, n - 1, wanted);
        assert((n - 1) as usize == n - 1);
        let before = wanted_places(list, n - 1, wanted);
        let now = wanted_places(list, n, wanted);
        assert forall|i: int| 0 <= i < now.len() implies (#[trigger] now[i]) < n by {
            if i < before.len() {
                assert(now[i] == before[i]);
            }
        }
    }
}

/// A run that only went through the motions is marked, and another is not.
pub proof fn law_dry_runs_are_marked(first: RecordModel, dry: RecordModel)
    requires
        !first.dry_run,
        dry == (RecordModel { dry_run: true, ..first }),
    ensures
        run_heading(first) == date(first.ts) + "  "@ + first.cmd + "  run "@ + first.run_id
            + "\n"@,
        run_heading(dry) == run_heading(first).drop_last() + "  [dry-run]\n"@,
{
    reveal_strlit("");
    reveal_strlit("\n");
    reveal_strlit("  [dry-run]");
    reveal_strlit("  [dry-run]\n");
    let front = date(first.ts) + "  "@ + first.cmd + "  run "@ + first.run_id;
    assert(run_heading(first) =~= front + "\n"@);
    assert(run_heading(first).drop_last() =~= front);
    assert("  [dry-run]\n"@ =~= "  [dry-run]"@ + "\n"@);
    assert(run_heading(dry) =~= front + ("  [dry-run]"@ + "\n"@));
}

} // verus!

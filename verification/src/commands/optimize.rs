//! `optimize`: maintenance tasks. Each is a command with one candidate that
//! takes no space, so a run is told of in tasks and not in bytes.

use vstd::prelude::*;

use crate::commands::clean::{
    groups_done, lemma_groups_done_is_of_run, lemma_selection_done_is_of_run, run_groups,
    run_selection, selection_done,
};
use crate::commands::shared::{
    heading, heading_of, intended, intent, kept_in_full, law_nothing_is_left_untold, notes_below,
    ran_count, skipped_count, summarize_run, with_notes, Intent,
};
use crate::config::Config;
use crate::ctx::Ctx;
use crate::exec::{since, steady, Act, Effector, Summary};
use crate::host::Host;
use crate::item::{candidates, groups, CandidateModel, Group, GroupModel, Risk};
use crate::rules::{models, Rule, RuleModel};
use crate::rules::optimize::{rules, table};
use crate::runner::CommandRunner;
use crate::safety::journal::{
    handed, read_after, records, AuditLog, Entry, Reading, Record, RecordModel,
};
use crate::safety::protected::SafetyEnv;
use crate::safety::whitelist::Whitelist;
use crate::scan::{scan, scan_found};
use crate::text;

verus! {

broadcast use vstd::seq::group_seq_axioms;

/// The first `n` tasks, one to a line.
pub open spec fn task_lines(list: Seq<CandidateModel>, n: int) -> Seq<char>
    decreases n,
{
    if n <= 0 {
        Seq::empty()
    } else {
        task_lines(list, n - 1) + ("  "@ + list[n - 1].label + "\n"@)
    }
}

fn task_lines_of(g: &Group) -> (r: String)
    ensures
        r@ == task_lines(g@.candidates, g@.candidates.len() as int),
{
    let ghost all = g@.candidates;
    let mut out = "".to_owned();
    proof {
        reveal_strlit("");
    }
    let mut i: usize = 0;
    assert(out@ =~= Seq::empty());
    while i < g.candidates.len()
        invariant
            i <= g.candidates.len(),
            all == candidates(g.candidates@),
            out@ == task_lines(all, i as int),
        decreases g.candidates.len() - i,
    {
        assert(all[i as int] == g.candidates@[i as int]@);
        out.append("  ");
        out.append(g.candidates[i].label.as_str());
        out.append("\n");
        assert(out@ =~= task_lines(all, i + 1));
        i += 1;
    }
    out
}

/// What the plan tells of a group; nothing of one without tasks.
pub open spec fn group_text(g: GroupModel) -> Seq<char> {
    if g.candidates.len() == 0 {
        Seq::empty()
    } else {
        heading(g) + task_lines(g.candidates, g.candidates.len() as int) + (if g.risk
            == Risk::Safe {
            ""@
        } else {
            "  (opt-in — not run automatically)\n"@
        })
    }
}

pub open spec fn groups_text(list: Seq<GroupModel>, n: int) -> Seq<char>
    decreases n,
{
    if n <= 0 {
        Seq::empty()
    } else {
        groups_text(list, n - 1) + group_text(list[n - 1])
    }
}

/// How many of the first `n` groups have tasks and are Safe, or are not.
pub open spec fn task_count(list: Seq<GroupModel>, n: int, safe: bool) -> nat
    decreases n,
{
    if n <= 0 {
        0
    } else {
        let before = task_count(list, n - 1, safe);
        if list[n - 1].candidates.len() > 0 && (list[n - 1].risk == Risk::Safe) == safe {
            before + 1
        } else {
            before
        }
    }
}

pub open spec fn any_tasks(list: Seq<GroupModel>) -> bool {
    exists|i: int| 0 <= i < list.len() && (#[trigger] list[i]).candidates.len() > 0
}

pub open spec fn plan_text(list: Seq<GroupModel>) -> Seq<char> {
    let n = list.len() as int;
    if any_tasks(list) {
        groups_text(list, n) + "\n"@ + text::decimal(task_count(list, n, true))
            + " pre-checked task(s) will run with --yes; "@ + text::decimal(
            task_count(list, n, false),
        ) + " opt-in task(s) need manual selection."@
    } else {
        "Nothing to optimize."@
    }
}

pub fn anything_to_do(list: &Vec<Group>) -> (r: bool)
    ensures
        r == any_tasks(groups(list@)),
{
    let ghost all = groups(list@);
    let mut i: usize = 0;
    while i < list.len()
        invariant
            i <= list.len(),
            all == groups(list@),
            forall|k: int| 0 <= k < i ==> (#[trigger] all[k]).candidates.len() == 0,
        decreases list.len() - i,
    {
        assert(all[i as int] == list@[i as int]@);
        if list[i].candidates.len() > 0 {
            assert(all[i as int].candidates.len() > 0);
            return true;
        }
        i += 1;
    }
    false
}

/// The plan: every task with its risk, and how many run with `--yes`.
pub fn render_plan(list: &Vec<Group>) -> (r: String)
    ensures
        r@ == plan_text(groups(list@)),
{
    if !anything_to_do(list) {
        return "Nothing to optimize.".to_owned();
    }
    let ghost all = groups(list@);
    let mut out = "".to_owned();
    proof {
        reveal_strlit("");
    }
    let mut prechecked: usize = 0;
    let mut opt_in: usize = 0;
    let mut i: usize = 0;
    assert(out@ =~= Seq::empty());
    while i < list.len()
        invariant
            i <= list.len(),
            all == groups(list@),
            out@ == groups_text(all, i as int),
            prechecked == task_count(all, i as int, true),
            opt_in == task_count(all, i as int, false),
            prechecked <= i,
            opt_in <= i,
        decreases list.len() - i,
    {
        let g = &list[i];
        assert(all[i as int] == g@);
        let ghost had = out@;
        if g.candidates.len() > 0 {
            let head = heading_of(g);
            let body = task_lines_of(g);
            out.append(head.as_str());
            out.append(body.as_str());
            if g.risk == Risk::Safe {
                prechecked += 1;
                out.append("");
            } else {
                opt_in += 1;
                out.append("  (opt-in — not run automatically)\n");
            }
        }
        assert(out@ =~= had + group_text(g@));
        i += 1;
    }
    let a = text::decimal_text(prechecked as u64);
    let b = text::decimal_text(opt_in as u64);
    out.append("\n");
    out.append(a.as_str());
    out.append(" pre-checked task(s) will run with --yes; ");
    out.append(b.as_str());
    out.append(" opt-in task(s) need manual selection.");
    out
}

pub open spec fn skipped_text(skipped: nat) -> Seq<char> {
    if skipped > 0 {
        " "@ + text::decimal(skipped) + " skipped."@
    } else {
        ""@
    }
}

fn add_skipped(out: &mut String, skipped: usize)
    ensures
        final(out)@ == old(out)@ + skipped_text(skipped as nat),
{
    if skipped > 0 {
        let digits = text::decimal_text(skipped as u64);
        let tail = text::concat3(" ", digits.as_str(), " skipped.");
        out.append(tail.as_str());
    } else {
        out.append("");
    }
}

/// How a run on a selection is summed up.
pub open spec fn result_text(ran: nat, skipped: nat, dry_run: bool) -> Seq<char> {
    (if dry_run {
        "Would run "@ + text::decimal(ran)
            + " task(s) — dry run — nothing executed (recorded in history)."@
    } else {
        "Ran "@ + text::decimal(ran) + " task(s)."@
    }) + skipped_text(skipped)
}

pub fn render_result(ran: usize, skipped: usize, dry_run: bool) -> (r: String)
    ensures
        r@ == result_text(ran as nat, skipped as nat, dry_run),
{
    let digits = text::decimal_text(ran as u64);
    let mut out = if dry_run {
        text::concat3(
            "Would run ",
            digits.as_str(),
            " task(s) — dry run — nothing executed (recorded in history).",
        )
    } else {
        text::concat3("Ran ", digits.as_str(), " task(s).")
    };
    add_skipped(&mut out, skipped);
    out
}

/// The plan and, below it, what came of it or how to go on.
pub open spec fn human_text(list: Seq<GroupModel>, intent: Intent, ran: nat, skipped: nat) -> Seq<
    char,
> {
    let plan = plan_text(list);
    if plan == "Nothing to optimize."@ {
        plan
    } else {
        match intent {
            Intent::Plan => plan
                + "\n\nRun with --dry-run for a journaled preview, or --yes to run pre-checked tasks."@,
            Intent::Preview => plan + "\n\nWould run "@ + text::decimal(ran)
                + " task(s) (dry run — nothing was executed; recorded in history)."@
                + skipped_text(skipped),
            Intent::Act => plan + "\n\nRan "@ + text::decimal(ran) + " task(s)."@
                + skipped_text(skipped),
        }
    }
}

pub fn render_human(list: &Vec<Group>, intent: Intent, ran: usize, skipped: usize) -> (r: String)
    ensures
        r@ == human_text(groups(list@), intent, ran as nat, skipped as nat),
{
    let mut out = render_plan(list);
    if text::same(out.as_str(), "Nothing to optimize.") {
        return out;
    }
    let digits = text::decimal_text(ran as u64);
    match intent {
        Intent::Plan => {
            out.append(
                "\n\nRun with --dry-run for a journaled preview, or --yes to run pre-checked tasks.",
            );
        },
        Intent::Preview => {
            out.append("\n\nWould run ");
            out.append(digits.as_str());
            out.append(" task(s) (dry run — nothing was executed; recorded in history).");
            add_skipped(&mut out, skipped);
        },
        Intent::Act => {
            out.append("\n\nRan ");
            out.append(digits.as_str());
            out.append(" task(s).");
            add_skipped(&mut out, skipped);
        },
    }
    out
}

/// What the command has to say.
#[derive(Debug)]
pub struct OptimizeOutput {
    pub rendered: String,
}

/// What is said of a plan, or of a run and what its records tell.
pub open spec fn reported(
    list: Seq<GroupModel>,
    intent: Intent,
    told: Seq<RecordModel>,
    run_id: Seq<char>,
) -> Seq<char> {
    if intent == Intent::Plan {
        human_text(list, intent, 0, 0)
    } else {
        human_text(
            list,
            intent,
            ran_count(told, told.len() as int, run_id),
            skipped_count(told, told.len() as int, run_id),
        ) + notes_below(told, run_id)
    }
}

pub fn report(
    list: &Vec<Group>,
    intent: Intent,
    told: &Vec<Record>,
    run_id: &str,
) -> (r: OptimizeOutput)
    ensures
        r.rendered@ == reported(groups(list@), intent, records(told@), run_id@),
{
    assert(records(told@).len() == told@.len());
    if intent == Intent::Plan {
        return OptimizeOutput { rendered: render_human(list, intent, 0, 0) };
    }
    let (ran, skipped, notes) = summarize_run(told, run_id);
    let text = render_human(list, intent, ran, skipped);
    OptimizeOutput { rendered: with_notes(text.as_str(), &notes) }
}

/// What is said once a selection was carried out.
pub open spec fn reported_selection(
    told: Seq<RecordModel>,
    run_id: Seq<char>,
    dry_run: bool,
) -> Seq<char> {
    result_text(
        ran_count(told, told.len() as int, run_id),
        skipped_count(told, told.len() as int, run_id),
        dry_run,
    ) + notes_below(told, run_id)
}

pub fn report_selection(told: &Vec<Record>, run_id: &str, dry_run: bool) -> (r: OptimizeOutput)
    ensures
        r.rendered@ == reported_selection(records(told@), run_id@, dry_run),
{
    assert(records(told@).len() == told@.len());
    let (ran, skipped, notes) = summarize_run(told, run_id);
    let text = render_result(ran, skipped, dry_run);
    OptimizeOutput { rendered: with_notes(text.as_str(), &notes) }
}

// ------------------------------------------------------------------- the command

/// Whether this is said of a run that has handed over `entries`, and with
/// these readings before and after it. Of a plan there is nothing to read up;
/// otherwise the journal is read once, when the run is over, and tells what
/// came of it, or cannot be read.
pub open spec fn said_of_run(
    list: Seq<GroupModel>,
    intent: Intent,
    entries: Seq<Entry>,
    readings: (Seq<Reading>, Seq<Reading>),
    run_id: Seq<char>,
    r: Result<OptimizeOutput, String>,
) -> bool {
    if intent == Intent::Plan {
        readings.1 == readings.0 && match r {
            Ok(out) => out.rendered@ == reported(list, intent, Seq::empty(), run_id),
            Err(_) => false,
        }
    } else {
        read_after(readings.0, readings.1, entries) && match (readings.1.last().found, r) {
            (Ok(told), Ok(out)) => out.rendered@ == reported(list, intent, told, run_id),
            (Err(why), Err(e)) => e@ == why,
            _ => false,
        }
    }
}

/// A run without a checklist. It scans and acts as `clean` does, and tells of
/// it in its own words.
pub fn run<R: CommandRunner, E: Effector, L: AuditLog>(
    ctx: &Ctx,
    whitelist: &Whitelist,
    env: &SafetyEnv,
    host: &Host,
    yes: bool,
    dry_run: bool,
    runner: &mut R,
    effector: &mut E,
    log: &mut L,
    run_id: &str,
) -> (r: (Vec<Group>, Option<Summary>, Result<OptimizeOutput, String>))
    ensures
        final(runner).prepared() == old(runner).prepared(),
        steady(*old(effector), *final(effector)),
        scan_found(
            table(),
            groups(r.0@),
            ctx,
            &ctx.config,
            whitelist,
            env,
            host,
            old(runner).exchanges(),
            final(runner).exchanges(),
        ),
        groups_done(
            groups(r.0@),
            table(),
            ctx,
            &ctx.config,
            host,
            intended(yes, dry_run),
            (old(effector).acts(), final(effector).acts()),
            (old(log).entries(), final(log).entries()),
            run_id@,
            r.1,
        ),
        said_of_run(
            groups(r.0@),
            intended(yes, dry_run),
            final(log).entries(),
            (old(log).readings(), final(log).readings()),
            run_id@,
            r.2,
        ),
{
    let rules = rules();
    let list = scan(&rules, ctx, &ctx.config, whitelist, env, host, runner);
    let what = intent(yes, dry_run);
    let summary = run_groups(
        &list,
        &rules,
        ctx,
        &ctx.config,
        host,
        yes,
        dry_run,
        effector,
        log,
        run_id,
    );
    let told = if what == Intent::Plan {
        Ok(Vec::new())
    } else {
        let told = log.read_all();
        assert(log.readings().drop_last() =~= old(log).readings());
        told
    };
    let out = match told {
        Ok(told) => Ok(report(&list, what, &told, run_id)),
        Err(e) => Err(e),
    };
    (list, summary, out)
}

/// Whether this is said of a selection that was carried out: the journal is
/// read once, when all of `entries` have been handed over.
pub open spec fn said_of_selection(
    dry_run: bool,
    entries: Seq<Entry>,
    readings: (Seq<Reading>, Seq<Reading>),
    run_id: Seq<char>,
    r: Result<OptimizeOutput, String>,
) -> bool {
    read_after(readings.0, readings.1, entries) && match (readings.1.last().found, r) {
        (Ok(told), Ok(out)) => out.rendered@ == reported_selection(told, run_id, dry_run),
        (Err(why), Err(e)) => e@ == why,
        _ => false,
    }
}

/// Carries out what was ticked on the checklist, and tells of it.
pub fn render_after_selection<E: Effector, L: AuditLog>(
    list: &Vec<Group>,
    selection: &Vec<(usize, usize)>,
    rules: &Vec<Rule>,
    ctx: &Ctx,
    host: &Host,
    dry_run: bool,
    effector: &mut E,
    log: &mut L,
    run_id: &str,
) -> (r: (Summary, Result<OptimizeOutput, String>))
    ensures
        steady(*old(effector), *final(effector)),
        selection_done(
            groups(list@),
            selection@,
            models(rules@),
            ctx,
            &ctx.config,
            host,
            dry_run,
            (old(effector).acts(), final(effector).acts()),
            (old(log).entries(), final(log).entries()),
            run_id@,
            r.0,
        ),
        said_of_selection(
            dry_run,
            final(log).entries(),
            (old(log).readings(), final(log).readings()),
            run_id@,
            r.1,
        ),
{
    let summary = run_selection(
        list,
        selection,
        rules,
        ctx,
        &ctx.config,
        host,
        dry_run,
        effector,
        log,
        run_id,
    );
    let told = log.read_all();
    assert(log.readings().drop_last() =~= old(log).readings());
    let out = match told {
        Ok(told) => Ok(report_selection(&told, run_id, dry_run)),
        Err(e) => Err(e),
    };
    (summary, out)
}

// ------------------------------------------------------------------------- laws

/// Where the journal holds a run as it was, what is said of it is said of
/// exactly what the run put on record.
pub proof fn law_a_run_is_told_in_full(
    list: Seq<GroupModel>,
    ctx: &Ctx,
    config: &Config,
    host: &Host,
    intent: Intent,
    acts: (Seq<Act>, Seq<Act>),
    entries: (Seq<Entry>, Seq<Entry>),
    readings: (Seq<Reading>, Seq<Reading>),
    earlier: Seq<RecordModel>,
    run_id: Seq<char>,
    summary: Option<Summary>,
    r: Result<OptimizeOutput, String>,
)
    requires
        intent != Intent::Plan,
        groups_done(list, table(), ctx, config, host, intent, acts, entries, run_id, summary),
        said_of_run(list, intent, entries.1, readings, run_id, r),
        kept_in_full(earlier, entries, readings.1.last(), run_id),
    ensures
        r is Ok,
        r->Ok_0.rendered@ == reported(list, intent, handed(since(entries)), run_id),
{
    lemma_groups_done_is_of_run(
        list,
        table(),
        ctx,
        config,
        host,
        intent,
        acts,
        entries,
        run_id,
        summary,
    );
    law_nothing_is_left_untold(earlier, entries, readings.1.last(), run_id);
}

/// Where the journal holds a run on a selection as it was, what is said of it
/// is said of exactly what the run put on record.
pub proof fn law_a_selection_is_told_in_full(
    list: Seq<GroupModel>,
    selection: Seq<(usize, usize)>,
    rules: Seq<RuleModel>,
    ctx: &Ctx,
    config: &Config,
    host: &Host,
    dry_run: bool,
    acts: (Seq<Act>, Seq<Act>),
    entries: (Seq<Entry>, Seq<Entry>),
    readings: (Seq<Reading>, Seq<Reading>),
    earlier: Seq<RecordModel>,
    run_id: Seq<char>,
    summary: Summary,
    r: Result<OptimizeOutput, String>,
)
    requires
        selection_done(
            list,
            selection,
            rules,
            ctx,
            config,
            host,
            dry_run,
            acts,
            entries,
            run_id,
            summary,
        ),
        said_of_selection(dry_run, entries.1, readings, run_id, r),
        kept_in_full(earlier, entries, readings.1.last(), run_id),
    ensures
        r is Ok,
        r->Ok_0.rendered@ == reported_selection(handed(since(entries)), run_id, dry_run),
{
    lemma_selection_done_is_of_run(
        list,
        selection,
        rules,
        ctx,
        config,
        host,
        dry_run,
        acts,
        entries,
        run_id,
        summary,
    );
    law_nothing_is_left_untold(earlier, entries, readings.1.last(), run_id);
}

proof fn lemma_task_shown(list: Seq<CandidateModel>, n: int, c: int)
    requires
        0 <= c < n <= list.len(),
    ensures
        text::contains(task_lines(list, n), "  "@ + list[c].label + "\n"@),
    decreases n,
{
    let p = "  "@ + list[c].label + "\n"@;
    text::lemma_contains_on(p);
    if c < n - 1 {
        lemma_task_shown(list, n - 1, c);
    }
    text::lemma_contains_more(
        task_lines(list, n - 1),
        "  "@ + list[n - 1].label + "\n"@,
        p,
    );
}

proof fn lemma_group_shown(list: Seq<GroupModel>, n: int, g: int, p: Seq<char>)
    requires
        0 <= g < n <= list.len(),
        text::contains(group_text(list[g]), p),
    ensures
        text::contains(groups_text(list, n), p),
    decreases n,
{
    text::lemma_contains_on(p);
    if g < n - 1 {
        lemma_group_shown(list, n - 1, g, p);
    }
    text::lemma_contains_more(groups_text(list, n - 1), group_text(list[n - 1]), p);
}

/// The plan shows every task.
pub proof fn law_the_plan_shows_every_task(list: Seq<GroupModel>, g: int, c: int)
    requires
        0 <= g < list.len(),
        0 <= c < list[g].candidates.len(),
    ensures
        text::contains(plan_text(list), "  "@ + list[g].candidates[c].label + "\n"@),
{
    let x = list[g];
    let n = list.len() as int;
    let m = x.candidates.len() as int;
    let p = "  "@ + x.candidates[c].label + "\n"@;
    assert(any_tasks(list));
    lemma_task_shown(x.candidates, m, c);
    text::lemma_contains_on(p);
    text::lemma_contains_more(heading(x), task_lines(x.candidates, m), p);
    assert(text::contains(heading(x) + task_lines(x.candidates, m), p));
    assert(text::contains(group_text(x), p));
    lemma_group_shown(list, n, g, p);
}

/// A group with tasks counts as one to run where it is Safe, and as one to
/// choose where it is not; one without does not count.
pub proof fn law_safe_tasks_are_prechecked(list: Seq<GroupModel>, g: GroupModel)
    ensures
        ({
            let n = list.len() as int;
            let more = list.push(g);
            let tasks = g.candidates.len() > 0;
            &&& task_count(more, n + 1, true) == task_count(list, n, true) + (if tasks && g.risk
                == Risk::Safe {
                1nat
            } else {
                0nat
            })
            &&& task_count(more, n + 1, false) == task_count(list, n, false) + (if tasks
                && g.risk != Risk::Safe {
                1nat
            } else {
                0nat
            })
        }),
{
    let n = list.len() as int;
    lemma_same_tasks(list, list.push(g), n);
    assert(list.push(g)[n] == g);
}

proof fn lemma_same_tasks(a: Seq<GroupModel>, b: Seq<GroupModel>, n: int)
    requires
        0 <= n <= a.len() <= b.len(),
        forall|i: int| 0 <= i < n ==> a[i] == b[i],
    ensures
        task_count(a, n, true) == task_count(b, n, true),
        task_count(a, n, false) == task_count(b, n, false),
    decreases n,
{
    if n > 0 {
        lemma_same_tasks(a, b, n - 1);
    }
}

} // verus!

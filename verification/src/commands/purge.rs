//! `purge`: build output of projects. Everything it offers is a plain path
//! below the configured roots.

use vstd::prelude::*;

use crate::commands::clean::{
    bytes_of, deleted_bytes, freed, lemma_deleted_bytes_of_both, lemma_deletes_add_up, previewed,
};
use crate::commands::shared::{
    add_selectable, annotate, any_news, anything_found, has_news, intended, intent, kept_in_full,
    law_nothing_is_left_untold, law_what_is_left_out_is_shown, lemma_performed_is_of_run,
    notes_below, of_run, selectable_bytes,
    skip_lines, skip_lines_of, Intent,
};
use crate::ctx::Ctx;
use crate::exec::{
    all_told, delete_steps, execute_deletes, goes_on, performed, selectable_marks, selected_deletes,
    selected_marks, since, steady, summed_up, ticks_all, Act, DryRunEffector, Effector, Summary,
};
use crate::host::Host;
use crate::item::{candidates, groups, CandidateModel, Group, GroupModel};
use crate::output::{human, humanize_bytes};
use crate::purge::{expand_roots, purge_groups, scan};
use crate::rules::expanded_all;
use crate::safety::journal::{
    handed, read_after, records, AuditLog, Entry, Reading, Record, RecordModel,
};
use crate::safety::protected::SafetyEnv;
use crate::safety::whitelist::Whitelist;
use crate::text;

verus! {

broadcast use vstd::seq::group_seq_axioms;

// ------------------------------------------------------------- what is selected

/// The places of the selectable ones among the first `n` candidates.
pub open spec fn group_picks(list: Seq<CandidateModel>, n: int, group: usize) -> Seq<(usize, usize)>
    decreases n,
{
    if n <= 0 {
        Seq::empty()
    } else if list[n - 1].selectable {
        group_picks(list, n - 1, group).push((group, (n - 1) as usize))
    } else {
        group_picks(list, n - 1, group)
    }
}

/// Those of the first `n` groups.
pub open spec fn picks(list: Seq<GroupModel>, n: int) -> Seq<(usize, usize)>
    decreases n,
{
    if n <= 0 {
        Seq::empty()
    } else {
        picks(list, n - 1) + group_picks(
            list[n - 1].candidates,
            list[n - 1].candidates.len() as int,
            (n - 1) as usize,
        )
    }
}

/// What `--yes` and `--dry-run` act on: exactly what the checklist would
/// start with. Recent artifacts need somebody to select them.
pub fn default_selection(list: &Vec<Group>) -> (r: Vec<(usize, usize)>)
    ensures
        r@ == picks(groups(list@), list@.len() as int),
{
    let ghost all = groups(list@);
    let mut out: Vec<(usize, usize)> = Vec::new();
    let mut i: usize = 0;
    assert(out@ =~= Seq::empty());
    while i < list.len()
        invariant
            i <= list.len(),
            all == groups(list@),
            out@ == picks(all, i as int),
        decreases list.len() - i,
    {
        let g = &list[i];
        assert(all[i as int] == g@);
        let ghost had = out@;
        let ghost cands = g@.candidates;
        let mut j: usize = 0;
        assert(out@ =~= had + group_picks(cands, 0, i));
        while j < g.candidates.len()
            invariant
                j <= g.candidates.len(),
                cands == candidates(g.candidates@),
                out@ == had + group_picks(cands, j as int, i),
            decreases g.candidates.len() - j,
        {
            assert(cands[j as int] == g.candidates@[j as int]@);
            if g.candidates[j].selectable {
                out.push((i, j));
                assert(out@ =~= had + group_picks(cands, j + 1, i));
            }
            j += 1;
        }
        i += 1;
    }
    out
}

// ---------------------------------------------------------------------- acting

/// Where a purge may delete.
pub open spec fn roots_of(ctx: &Ctx) -> Seq<Seq<char>> {
    expanded_all(text::texts(ctx.config.purge.roots@), ctx.root@, ctx.home@)
}

/// Deletes exactly the selected candidates.
pub fn execute_selection<E: Effector, L: AuditLog>(
    list: &Vec<Group>,
    selection: &Vec<(usize, usize)>,
    ctx: &Ctx,
    effector: &mut E,
    log: &mut L,
    run_id: &str,
    dry_run: bool,
) -> (r: Summary)
    ensures
        final(effector).acts().len() >= old(effector).acts().len(),
        final(effector).acts().take(old(effector).acts().len() as int) == old(effector).acts(),
        steady(*old(effector), *final(effector)),
        final(log).entries().len() >= old(log).entries().len(),
        final(log).entries().take(old(log).entries().len() as int) == old(log).entries(),
        final(log).readings() == old(log).readings(),
        ({
            let plan = selected_deletes(
                groups(list@),
                list@.len() as int,
                selection@,
                roots_of(ctx),
            );
            performed(
                plan,
                plan.len() as int,
                final(effector).acts().skip(old(effector).acts().len() as int),
                final(log).entries().skip(old(log).entries().len() as int),
                "purge"@,
                run_id@,
                dry_run,
            )
        }),
        summed_up(r, final(log).entries().skip(old(log).entries().len() as int)),
{
    let allowed = expand_roots(&ctx.config.purge.roots, ctx.root.as_str(), ctx.home.as_str());
    execute_deletes(list, selection, &allowed, effector, log, "purge", run_id, dry_run)
}

/// What is done with a selection: the real thing, or a preview of it. `acts`
/// and `entries` are the logs before and after it.
pub open spec fn selection_done(
    list: Seq<GroupModel>,
    selection: Seq<(usize, usize)>,
    ctx: &Ctx,
    dry_run: bool,
    acts: (Seq<Act>, Seq<Act>),
    entries: (Seq<Entry>, Seq<Entry>),
    run_id: Seq<char>,
    r: Summary,
) -> bool {
    let plan = selected_deletes(list, list.len() as int, selection, roots_of(ctx));
    let n = plan.len() as int;
    &&& goes_on(acts)
    &&& goes_on(entries)
    &&& dry_run ==> acts.1 == acts.0
    &&& if dry_run {
        previewed(
            |told: Seq<Act>| performed(plan, n, told, since(entries), "purge"@, run_id, true),
        )
    } else {
        performed(plan, n, since(acts), since(entries), "purge"@, run_id, false)
    }
    &&& summed_up(r, since(entries))
}

/// What a run without a checklist does with the groups: nothing for a plan,
/// otherwise what it would do with everything that is preselected.
pub open spec fn groups_done(
    list: Seq<GroupModel>,
    ctx: &Ctx,
    intent: Intent,
    acts: (Seq<Act>, Seq<Act>),
    entries: (Seq<Entry>, Seq<Entry>),
    run_id: Seq<char>,
    r: Option<Summary>,
) -> bool {
    match r {
        Some(s) => intent != Intent::Plan && selection_done(
            list,
            picks(list, list.len() as int),
            ctx,
            intent == Intent::Preview,
            acts,
            entries,
            run_id,
            s,
        ),
        None => intent == Intent::Plan && acts.1 == acts.0 && entries.1 == entries.0,
    }
}

/// Acts on what was ticked.
pub fn run_selection<E: Effector, L: AuditLog>(
    list: &Vec<Group>,
    selection: &Vec<(usize, usize)>,
    ctx: &Ctx,
    dry_run: bool,
    effector: &mut E,
    log: &mut L,
    run_id: &str,
) -> (r: Summary)
    ensures
        steady(*old(effector), *final(effector)),
        final(log).readings() == old(log).readings(),
        selection_done(
            groups(list@),
            selection@,
            ctx,
            dry_run,
            (old(effector).acts(), final(effector).acts()),
            (old(log).entries(), final(log).entries()),
            run_id@,
            r,
        ),
{
    let ghost acts0 = effector.acts();
    let ghost entries0 = log.entries();
    assert(acts0.take(acts0.len() as int) =~= acts0);
    if dry_run {
        let mut told = DryRunEffector::new();
        let summary = execute_selection(list, selection, ctx, &mut told, log, run_id, true);
        proof {
            let plan = selected_deletes(
                groups(list@),
                list@.len() as int,
                selection@,
                roots_of(ctx),
            );
            let news = log.entries().skip(entries0.len() as int);
            let acts = told.acts().skip(0);
            assert(acts =~= told.acts());
            let fits = |acts: Seq<Act>|
                performed(plan, plan.len() as int, acts, news, "purge"@, run_id@, true);
            assert(fits(acts));
            assert(all_told(acts));
        }
        summary
    } else {
        execute_selection(list, selection, ctx, effector, log, run_id, false)
    }
}

/// Acts on the groups as the flags ask.
pub fn run_groups<E: Effector, L: AuditLog>(
    list: &Vec<Group>,
    ctx: &Ctx,
    yes: bool,
    dry_run: bool,
    effector: &mut E,
    log: &mut L,
    run_id: &str,
) -> (r: Option<Summary>)
    ensures
        steady(*old(effector), *final(effector)),
        final(log).readings() == old(log).readings(),
        groups_done(
            groups(list@),
            ctx,
            intended(yes, dry_run),
            (old(effector).acts(), final(effector).acts()),
            (old(log).entries(), final(log).entries()),
            run_id@,
            r,
        ),
{
    match intent(yes, dry_run) {
        Intent::Plan => None,
        what => {
            let selection = default_selection(list);
            let preview = what == Intent::Preview;
            Some(run_selection(list, &selection, ctx, preview, effector, log, run_id))
        },
    }
}

// --------------------------------------------------------------------- the plan

/// The first `n` candidates, one to a line.
pub open spec fn candidate_lines(list: Seq<CandidateModel>, n: int) -> Seq<char>
    decreases n,
{
    if n <= 0 {
        Seq::empty()
    } else {
        let c = list[n - 1];
        candidate_lines(list, n - 1) + ("  "@ + c.label + "  "@ + human(c.bytes as nat) + "\n"@)
    }
}

fn candidate_lines_of(g: &Group) -> (r: String)
    ensures
        r@ == candidate_lines(g@.candidates, g@.candidates.len() as int),
{
    let ghost all = g@.candidates;
    let mut out = "".to_owned();
    proof {
        reveal_strlit("");
    }
    let mut i: usize = 0;
    assert(out@ =~= Seq::empty());
    while i < g.candidates.len()
        invariant
            i <= g.candidates.len(),
            all == candidates(g.candidates@),
            out@ == candidate_lines(all, i as int),
        decreases g.candidates.len() - i,
    {
        let c = &g.candidates[i];
        assert(all[i as int] == c@);
        let size = humanize_bytes(c.bytes);
        out.append("  ");
        out.append(c.label.as_str());
        out.append("  ");
        out.append(size.as_str());
        out.append("\n");
        assert(out@ =~= candidate_lines(all, i + 1));
        i += 1;
    }
    out
}

/// What the plan tells of a group.
pub open spec fn group_text(g: GroupModel) -> Seq<char> {
    g.title + "\n"@ + candidate_lines(g.candidates, g.candidates.len() as int) + skip_lines(
        g.skipped,
        g.skipped.len() as int,
    )
}

pub open spec fn groups_text(list: Seq<GroupModel>, n: int) -> Seq<char>
    decreases n,
{
    if n <= 0 {
        Seq::empty()
    } else if has_news(list[n - 1]) {
        groups_text(list, n - 1) + group_text(list[n - 1])
    } else {
        groups_text(list, n - 1)
    }
}

/// What `--yes` would free in the first `n` groups.
pub open spec fn would_free(list: Seq<GroupModel>, n: int) -> u64
    decreases n,
{
    if n <= 0 {
        0
    } else {
        selectable_bytes(
            list[n - 1].candidates,
            list[n - 1].candidates.len() as int,
            would_free(list, n - 1),
        )
    }
}

pub open spec fn plan_text(list: Seq<GroupModel>) -> Seq<char> {
    if any_news(list) {
        groups_text(list, list.len() as int) + "\nWould free: "@ + human(
            would_free(list, list.len() as int) as nat,
        )
    } else {
        "Nothing to purge."@
    }
}

/// The plan, with a total of exactly what `--yes` would delete.
pub fn render_plan(list: &Vec<Group>) -> (r: String)
    ensures
        r@ == plan_text(groups(list@)),
{
    if !anything_found(list) {
        return "Nothing to purge.".to_owned();
    }
    let ghost all = groups(list@);
    let mut out = "".to_owned();
    proof {
        reveal_strlit("");
    }
    let mut total: u64 = 0;
    let mut i: usize = 0;
    assert(out@ =~= Seq::empty());
    while i < list.len()
        invariant
            i <= list.len(),
            all == groups(list@),
            out@ == groups_text(all, i as int),
            total == would_free(all, i as int),
        decreases list.len() - i,
    {
        let g = &list[i];
        assert(all[i as int] == g@);
        let ghost had = out@;
        total = add_selectable(g, total);
        if g.candidates.len() > 0 || g.skipped.len() > 0 {
            let body = candidate_lines_of(g);
            let left_out = skip_lines_of(g);
            out.append(g.title.as_str());
            out.append("\n");
            out.append(body.as_str());
            out.append(left_out.as_str());
            assert(out@ =~= had + group_text(g@));
        }
        i += 1;
    }
    let size = humanize_bytes(total);
    out.append("\nWould free: ");
    out.append(size.as_str());
    out
}

// -------------------------------------------------------------------- the result

/// How a run on a selection is summed up.
pub open spec fn result_text(bytes: u64, dry_run: bool) -> Seq<char> {
    if dry_run {
        "Would free "@ + human(bytes as nat)
            + " — dry run — nothing deleted (recorded in history)."@
    } else {
        "Freed "@ + human(bytes as nat) + "."@
    }
}

pub fn render_result(summary: &Summary, dry_run: bool) -> (r: String)
    ensures
        r@ == result_text(summary.bytes_freed, dry_run),
{
    let size = humanize_bytes(summary.bytes_freed);
    if dry_run {
        text::concat3(
            "Would free ",
            size.as_str(),
            " — dry run — nothing deleted (recorded in history).",
        )
    } else {
        text::concat3("Freed ", size.as_str(), ".")
    }
}

/// The plan and, below it, what came of it or how to go on.
pub open spec fn human_text(list: Seq<GroupModel>, bytes: Option<u64>, intent: Intent) -> Seq<
    char,
> {
    let plan = plan_text(list);
    if plan == "Nothing to purge."@ {
        plan
    } else {
        match bytes {
            Some(b) => if intent == Intent::Act {
                plan + "\n\nFreed "@ + human(b as nat) + "."@
            } else {
                plan + "\n\nWould free "@ + human(b as nat)
                    + " (dry run — nothing was deleted; recorded in history)."@
            },
            None => if intent == Intent::Plan {
                plan + "\n\nRun with --dry-run for a journaled preview, or --yes to purge."@
            } else {
                plan
            },
        }
    }
}

pub fn render_human(list: &Vec<Group>, summary: Option<&Summary>, intent: Intent) -> (r: String)
    ensures
        r@ == human_text(groups(list@), freed(summary), intent),
{
    let mut out = render_plan(list);
    if text::same(out.as_str(), "Nothing to purge.") {
        return out;
    }
    match summary {
        Some(s) => {
            let size = humanize_bytes(s.bytes_freed);
            if intent == Intent::Act {
                out.append("\n\nFreed ");
                out.append(size.as_str());
                out.append(".");
            } else {
                out.append("\n\nWould free ");
                out.append(size.as_str());
                out.append(" (dry run — nothing was deleted; recorded in history).");
            }
        },
        None => if intent == Intent::Plan {
            out.append("\n\nRun with --dry-run for a journaled preview, or --yes to purge.");
        },
    }
    out
}

/// What the command has to say.
#[derive(Debug)]
pub struct PurgeOutput {
    pub rendered: String,
}

/// What is said of a plan, or of a run and what its records tell.
pub open spec fn reported(
    list: Seq<GroupModel>,
    summary: Option<u64>,
    intent: Intent,
    told: Seq<RecordModel>,
    run_id: Seq<char>,
) -> Seq<char> {
    if intent == Intent::Plan {
        human_text(list, summary, intent)
    } else {
        human_text(list, summary, intent) + notes_below(told, run_id)
    }
}

pub fn report(
    list: &Vec<Group>,
    summary: Option<&Summary>,
    intent: Intent,
    told: &Vec<Record>,
    run_id: &str,
) -> (r: PurgeOutput)
    ensures
        r.rendered@ == reported(groups(list@), freed(summary), intent, records(told@), run_id@),
{
    let text = render_human(list, summary, intent);
    if intent == Intent::Plan {
        return PurgeOutput { rendered: text };
    }
    PurgeOutput { rendered: annotate(text.as_str(), told, run_id) }
}

/// What is said once a selection was carried out.
pub open spec fn reported_selection(
    bytes: u64,
    told: Seq<RecordModel>,
    run_id: Seq<char>,
    dry_run: bool,
) -> Seq<char> {
    result_text(bytes, dry_run) + notes_below(told, run_id)
}

pub fn report_selection(
    summary: &Summary,
    told: &Vec<Record>,
    run_id: &str,
    dry_run: bool,
) -> (r: PurgeOutput)
    ensures
        r.rendered@ == reported_selection(summary.bytes_freed, records(told@), run_id@, dry_run),
{
    let text = render_result(summary, dry_run);
    PurgeOutput { rendered: annotate(text.as_str(), told, run_id) }
}

// ------------------------------------------------------------------- the command

/// Whether this is said of a run that has handed over `entries`, and with
/// these readings before and after it. Of a plan there is nothing to read up;
/// otherwise the journal is read once, when the run is over, and tells what
/// came of it, or cannot be read.
pub open spec fn said_of_run(
    list: Seq<GroupModel>,
    summary: Option<Summary>,
    intent: Intent,
    entries: Seq<Entry>,
    readings: (Seq<Reading>, Seq<Reading>),
    run_id: Seq<char>,
    r: Result<PurgeOutput, String>,
) -> bool {
    let bytes = bytes_of(summary);
    if intent == Intent::Plan {
        readings.1 == readings.0 && match r {
            Ok(out) => out.rendered@ == reported(list, bytes, intent, Seq::empty(), run_id),
            Err(_) => false,
        }
    } else {
        read_after(readings.0, readings.1, entries) && match (readings.1.last().found, r) {
            (Ok(told), Ok(out)) => out.rendered@ == reported(list, bytes, intent, told, run_id),
            (Err(why), Err(e)) => e@ == why,
            _ => false,
        }
    }
}

/// A run without a checklist: scans, does what the flags ask, and tells of
/// it.
pub fn run<E: Effector, L: AuditLog>(
    ctx: &Ctx,
    whitelist: &Whitelist,
    env: &SafetyEnv,
    host: &Host,
    yes: bool,
    dry_run: bool,
    effector: &mut E,
    log: &mut L,
    run_id: &str,
) -> (r: (Vec<Group>, Option<Summary>, Result<PurgeOutput, String>))
    ensures
        steady(*old(effector), *final(effector)),
        groups(r.0@) == purge_groups(ctx, &ctx.config, whitelist, env, host),
        groups_done(
            groups(r.0@),
            ctx,
            intended(yes, dry_run),
            (old(effector).acts(), final(effector).acts()),
            (old(log).entries(), final(log).entries()),
            run_id@,
            r.1,
        ),
        said_of_run(
            groups(r.0@),
            r.1,
            intended(yes, dry_run),
            final(log).entries(),
            (old(log).readings(), final(log).readings()),
            run_id@,
            r.2,
        ),
{
    let list = scan(ctx, &ctx.config, whitelist, env, host);
    let what = intent(yes, dry_run);
    let summary = run_groups(&list, ctx, yes, dry_run, effector, log, run_id);
    let told = if what == Intent::Plan {
        Ok(Vec::new())
    } else {
        let told = log.read_all();
        assert(log.readings().drop_last() =~= old(log).readings());
        told
    };
    let out = match told {
        Ok(told) => Ok(report(&list, summary.as_ref(), what, &told, run_id)),
        Err(e) => Err(e),
    };
    (list, summary, out)
}

/// Whether this is said of a selection that was carried out: the journal is
/// read once, when all of `entries` have been handed over.
pub open spec fn said_of_selection(
    summary: Summary,
    dry_run: bool,
    entries: Seq<Entry>,
    readings: (Seq<Reading>, Seq<Reading>),
    run_id: Seq<char>,
    r: Result<PurgeOutput, String>,
) -> bool {
    read_after(readings.0, readings.1, entries) && match (readings.1.last().found, r) {
        (Ok(told), Ok(out)) => out.rendered@ == reported_selection(
            summary.bytes_freed,
            told,
            run_id,
            dry_run,
        ),
        (Err(why), Err(e)) => e@ == why,
        _ => false,
    }
}

/// Carries out what was ticked on the checklist, and tells of it.
pub fn render_after_selection<E: Effector, L: AuditLog>(
    list: &Vec<Group>,
    selection: &Vec<(usize, usize)>,
    ctx: &Ctx,
    dry_run: bool,
    effector: &mut E,
    log: &mut L,
    run_id: &str,
) -> (r: (Summary, Result<PurgeOutput, String>))
    ensures
        steady(*old(effector), *final(effector)),
        selection_done(
            groups(list@),
            selection@,
            ctx,
            dry_run,
            (old(effector).acts(), final(effector).acts()),
            (old(log).entries(), final(log).entries()),
            run_id@,
            r.0,
        ),
        said_of_selection(
            r.0,
            dry_run,
            final(log).entries(),
            (old(log).readings(), final(log).readings()),
            run_id@,
            r.1,
        ),
{
    let summary = run_selection(list, selection, ctx, dry_run, effector, log, run_id);
    let told = log.read_all();
    assert(log.readings().drop_last() =~= old(log).readings());
    let out = match told {
        Ok(told) => Ok(report_selection(&summary, &told, run_id, dry_run)),
        Err(e) => Err(e),
    };
    (summary, out)
}

// ------------------------------------------------------------------------- laws

proof fn lemma_group_picks(list: Seq<CandidateModel>, n: int, group: usize, x: (usize, usize))
    requires
        0 <= n <= list.len() <= usize::MAX,
    ensures
        group_picks(list, n, group).contains(x) <==> x.0 == group && x.1 < n
            && list[x.1 as int].selectable,
    decreases n,
{
    if n > 0 {
        lemma_group_picks(list, n - 1, group, x);
        let before = group_picks(list, n - 1, group);
        let now = group_picks(list, n, group);
        if list[n - 1].selectable {
            assert(now[now.len() - 1] == (group, (n - 1) as usize));
            if before.contains(x) {
                let k = choose|k: int| 0 <= k < before.len() && before[k] == x;
                assert(now[k] == x);
            }
        }
    }
}

/// What is selected by default is exactly what is selectable.
pub proof fn law_default_selection_is_what_is_selectable(
    list: Seq<GroupModel>,
    n: int,
    x: (usize, usize),
)
    requires
        0 <= n <= list.len() <= usize::MAX,
        forall|i: int|
            0 <= i < list.len() ==> (#[trigger] list[i]).candidates.len() <= usize::MAX,
    ensures
        picks(list, n).contains(x) <==> x.0 < n && x.1 < list[x.0 as int].candidates.len()
            && list[x.0 as int].candidates[x.1 as int].selectable,
    decreases n,
{
    if n > 0 {
        law_default_selection_is_what_is_selectable(list, n - 1, x);
        let before = picks(list, n - 1);
        let cands = list[n - 1].candidates;
        let more = group_picks(cands, cands.len() as int, (n - 1) as usize);
        lemma_group_picks(cands, cands.len() as int, (n - 1) as usize, x);
        let now = before + more;
        if before.contains(x) {
            let k = choose|k: int| 0 <= k < before.len() && before[k] == x;
            assert(now[k] == x);
        }
        if more.contains(x) {
            let k = choose|k: int| 0 <= k < more.len() && more[k] == x;
            assert(now[before.len() + k] == x);
        }
    }
}

/// The default selection ticks everything that is selectable, and nothing
/// else.
pub proof fn law_default_selection_ticks_all(list: Seq<GroupModel>)
    requires
        list.len() <= usize::MAX,
        forall|i: int|
            0 <= i < list.len() ==> (#[trigger] list[i]).candidates.len() <= usize::MAX,
    ensures
        ticks_all(list, picks(list, list.len() as int)),
{
    let all = picks(list, list.len() as int);
    assert forall|i: int, j: int|
        0 <= i < list.len() && 0 <= j < list[i].candidates.len() implies (all.contains(
        (i as usize, j as usize),
    ) <==> (#[trigger] list[i].candidates[j]).selectable) by {
        law_default_selection_is_what_is_selectable(
            list,
            list.len() as int,
            (i as usize, j as usize),
        );
    }
}

proof fn lemma_total(list: Seq<GroupModel>, n: int, chosen: Seq<(usize, usize)>, allowed: Seq<Seq<char>>)
    requires
        0 <= n <= list.len() <= usize::MAX,
        chosen == picks(list, list.len() as int),
        forall|i: int|
            0 <= i < list.len() ==> (#[trigger] list[i]).candidates.len() <= usize::MAX,
        forall|i: int, k: int|
            0 <= i < list.len() && 0 <= k < list[i].candidates.len()
                ==> (#[trigger] list[i].candidates[k]).path is Some,
    ensures
        would_free(list, n) == deleted_bytes(selected_deletes(list, n, chosen, allowed), 0),
    decreases n,
{
    if n > 0 {
        lemma_total(list, n - 1, chosen, allowed);
        let cands = list[n - 1].candidates;
        let marked = selected_marks(cands, (n - 1) as usize, chosen);
        assert forall|k: int| 0 <= k < cands.len() implies marked[k] == #[trigger] cands[k].selectable by {
            law_default_selection_is_what_is_selectable(
                list,
                list.len() as int,
                ((n - 1) as usize, k as usize),
            );
        }
        assert(marked =~= selectable_marks(cands));
        let before = selected_deletes(list, n - 1, chosen, allowed);
        let more = delete_steps(cands, marked, cands.len() as int, list[n - 1].rule_id, allowed);
        lemma_deleted_bytes_of_both(before, more, 0);
        assert forall|k: int| 0 <= k < cands.len() implies (#[trigger] cands[k]).path is Some by {
            assert(list[n - 1].candidates[k].path is Some);
        }
        lemma_deletes_add_up(
            cands,
            cands.len() as int,
            list[n - 1].rule_id,
            allowed,
            deleted_bytes(before, 0),
        );
    }
}

/// The total of the plan is exactly what `--yes` sets out to delete.
pub proof fn law_plan_total_is_what_yes_deletes(list: Seq<GroupModel>, ctx: &Ctx)
    requires
        list.len() <= usize::MAX,
        forall|i: int|
            0 <= i < list.len() ==> (#[trigger] list[i]).candidates.len() <= usize::MAX,
        forall|i: int, k: int|
            0 <= i < list.len() && 0 <= k < list[i].candidates.len()
                ==> (#[trigger] list[i].candidates[k]).path is Some,
    ensures
        would_free(list, list.len() as int) == deleted_bytes(
            selected_deletes(
                list,
                list.len() as int,
                picks(list, list.len() as int),
                roots_of(ctx),
            ),
            0,
        ),
{
    lemma_total(list, list.len() as int, picks(list, list.len() as int), roots_of(ctx));
}


proof fn lemma_selection_done_is_of_run(
    list: Seq<GroupModel>,
    selection: Seq<(usize, usize)>,
    ctx: &Ctx,
    dry_run: bool,
    acts: (Seq<Act>, Seq<Act>),
    entries: (Seq<Entry>, Seq<Entry>),
    run_id: Seq<char>,
    summary: Summary,
)
    requires
        selection_done(list, selection, ctx, dry_run, acts, entries, run_id, summary),
    ensures
        goes_on(entries),
        of_run(handed(since(entries)), run_id),
{
    let plan = selected_deletes(list, list.len() as int, selection, roots_of(ctx));
    let n = plan.len() as int;
    let news = since(entries);
    if dry_run {
        let told = choose|told: Seq<Act>| #[trigger]
            all_told(told) && performed(plan, n, told, news, "purge"@, run_id, true);
        lemma_performed_is_of_run(plan, n, told, news, "purge"@, run_id, true);
    } else {
        lemma_performed_is_of_run(plan, n, since(acts), news, "purge"@, run_id, false);
    }
}

/// Where the journal holds a run as it was, what is said of it is said of
/// exactly what the run put on record.
pub proof fn law_a_run_is_told_in_full(
    list: Seq<GroupModel>,
    ctx: &Ctx,
    intent: Intent,
    acts: (Seq<Act>, Seq<Act>),
    entries: (Seq<Entry>, Seq<Entry>),
    readings: (Seq<Reading>, Seq<Reading>),
    earlier: Seq<RecordModel>,
    run_id: Seq<char>,
    summary: Option<Summary>,
    r: Result<PurgeOutput, String>,
)
    requires
        intent != Intent::Plan,
        groups_done(list, ctx, intent, acts, entries, run_id, summary),
        said_of_run(list, summary, intent, entries.1, readings, run_id, r),
        kept_in_full(earlier, entries, readings.1.last(), run_id),
    ensures
        r is Ok,
        r->Ok_0.rendered@ == reported(
            list,
            bytes_of(summary),
            intent,
            handed(since(entries)),
            run_id,
        ),
{
    lemma_selection_done_is_of_run(
        list,
        picks(list, list.len() as int),
        ctx,
        intent == Intent::Preview,
        acts,
        entries,
        run_id,
        summary->0,
    );
    law_nothing_is_left_untold(earlier, entries, readings.1.last(), run_id);
}

/// Where the journal holds a run on a selection as it was, what is said of it
/// is said of exactly what the run put on record.
pub proof fn law_a_selection_is_told_in_full(
    list: Seq<GroupModel>,
    selection: Seq<(usize, usize)>,
    ctx: &Ctx,
    dry_run: bool,
    acts: (Seq<Act>, Seq<Act>),
    entries: (Seq<Entry>, Seq<Entry>),
    readings: (Seq<Reading>, Seq<Reading>),
    earlier: Seq<RecordModel>,
    run_id: Seq<char>,
    summary: Summary,
    r: Result<PurgeOutput, String>,
)
    requires
        selection_done(list, selection, ctx, dry_run, acts, entries, run_id, summary),
        said_of_selection(summary, dry_run, entries.1, readings, run_id, r),
        kept_in_full(earlier, entries, readings.1.last(), run_id),
    ensures
        r is Ok,
        r->Ok_0.rendered@ == reported_selection(
            summary.bytes_freed,
            handed(since(entries)),
            run_id,
            dry_run,
        ),
{
    lemma_selection_done_is_of_run(
        list,
        selection,
        ctx,
        dry_run,
        acts,
        entries,
        run_id,
        summary,
    );
    law_nothing_is_left_untold(earlier, entries, readings.1.last(), run_id);
}

proof fn lemma_candidate_shown(list: Seq<CandidateModel>, n: int, c: int)
    requires
        0 <= c < n <= list.len(),
    ensures
        text::contains(
            candidate_lines(list, n),
            "  "@ + list[c].label + "  "@ + human(list[c].bytes as nat),
        ),
    decreases n,
{
    let p = "  "@ + list[c].label + "  "@ + human(list[c].bytes as nat);
    let before = candidate_lines(list, n - 1);
    text::lemma_contains_on(p);
    if c < n - 1 {
        lemma_candidate_shown(list, n - 1, c);
    } else {
        let x = list[n - 1];
        let line = p + "\n"@;
        assert(text::contains(line, p));
        text::lemma_contains_more(before, line, p);
    }
}

proof fn lemma_group_shown(list: Seq<GroupModel>, n: int, g: int, p: Seq<char>)
    requires
        0 <= g < n <= list.len(),
        has_news(list[g]),
        text::contains(group_text(list[g]), p),
    ensures
        text::contains(groups_text(list, n), p),
    decreases n,
{
    text::lemma_contains_on(p);
    if g < n - 1 {
        lemma_group_shown(list, n - 1, g, p);
    } else {
        text::lemma_contains_more(groups_text(list, n - 1), group_text(list[g]), p);
    }
}

/// The plan shows every candidate with its size, everything that is left out
/// with the reason, and what would be freed.
pub proof fn law_the_plan_shows_everything(
    list: Seq<GroupModel>,
    g: int,
    c: int,
)
    requires
        0 <= g < list.len(),
    ensures
        0 <= c < list[g].candidates.len() ==> text::contains(
            plan_text(list),
            "  "@ + list[g].candidates[c].label + "  "@ + human(
                list[g].candidates[c].bytes as nat,
            ),
        ),
        0 <= c < list[g].skipped.len() ==> text::contains(
            plan_text(list),
            "  "@ + list[g].skipped[c].0 + "  skipped: "@ + list[g].skipped[c].1 + "\n"@,
        ),
        has_news(list[g]) ==> text::contains(
            plan_text(list),
            "\nWould free: "@ + human(would_free(list, list.len() as int) as nat),
        ),
{
    let n = list.len() as int;
    let x = list[g];
    let total = "\nWould free: "@ + human(would_free(list, n) as nat);
    let all = groups_text(list, n);
    if has_news(x) {
        assert(any_news(list));
        text::lemma_contains_on(total);
        text::lemma_contains_more(all, total, total);
        assert(all + "\nWould free: "@ + human(would_free(list, n) as nat) =~= all + total);
    }
    if 0 <= c < x.candidates.len() {
        let p = "  "@ + x.candidates[c].label + "  "@ + human(x.candidates[c].bytes as nat);
        let m = x.candidates.len() as int;
        lemma_candidate_shown(x.candidates, m, c);
        text::lemma_contains_on(p);
        text::lemma_contains_more((x.title + "\n"@), candidate_lines(x.candidates, m), p);
        assert(text::contains(group_text(x), p));
        lemma_group_shown(list, n, g, p);
        assert(text::contains(all + "\nWould free: "@, p));
    }
    if 0 <= c < x.skipped.len() {
        let p = "  "@ + x.skipped[c].0 + "  skipped: "@ + x.skipped[c].1 + "\n"@;
        let m = x.skipped.len() as int;
        let head = (x.title + "\n"@) + candidate_lines(x.candidates, x.candidates.len() as int);
        lemma_skip_shown(x.skipped, m, c);
        text::lemma_contains_on(p);
        text::lemma_contains_more(head, skip_lines(x.skipped, m), p);
        assert(text::contains(group_text(x), p));
        lemma_group_shown(list, n, g, p);
        assert(text::contains(all + "\nWould free: "@, p));
    }
}

proof fn lemma_skip_shown(list: Seq<(Seq<char>, Seq<char>)>, n: int, c: int)
    requires
        0 <= c < n <= list.len(),
    ensures
        text::contains(
            skip_lines(list, n),
            "  "@ + list[c].0 + "  skipped: "@ + list[c].1 + "\n"@,
        ),
{
    law_what_is_left_out_is_shown(list, n, c, seq![Seq::empty()], 1, 0);
}

/// A run is summed up by what it freed, or would free.
pub proof fn law_results_tell_what_was_freed(bytes: u64)
    ensures
        result_text(bytes, false) == "Freed "@ + human(bytes as nat) + "."@,
        result_text(bytes, true) == "Would free "@ + human(bytes as nat)
            + " — dry run — nothing deleted (recorded in history)."@,
{
}

} // verus!

//! `clean`: a plan by default, a preview with `--dry-run`, and with `--yes`
//! the Safe part of the plan.

use vstd::prelude::*;

use crate::commands::shared::{
    add_selectable, any_news, anything_found, has_news, heading, heading_of, intended, intent,
    kept_in_full, law_nothing_is_left_untold, law_what_is_left_out_is_shown,
    lemma_performed_is_of_run, lemma_performed_with_helper_is_of_run, notes_below, of_run,
    ran_count, selectable_bytes, skip_lines, skip_lines_of, skipped_count, summarize_run,
    with_notes, Intent,
};
use crate::config::Config;
use crate::ctx::Ctx;
use crate::exec::{
    all_told, auto_plan, auto_steps, delete_steps, execute, execute_selected, goes_on, performed,
    performed_with_helper, selectable_marks, selected_ops, selected_plan, since, steady, summed_up,
    Act, DryRunEffector, Effector, StepModel, Summary,
};
use crate::host::Host;
use crate::item::{candidates, groups, CandidateModel, Group, GroupModel, Risk};
use crate::output::{count_label, counted, human, humanize_bytes};
use crate::privilege::{find_rule, rule_at};
use crate::rules::{expanded_all, models, registry, registry_table, Action, Rule, RuleModel};
use crate::runner::CommandRunner;
use crate::safety::journal::{
    handed, read_after, records, AuditLog, Entry, Reading, Record, RecordModel,
};
use crate::safety::protected::SafetyEnv;
use crate::safety::whitelist::Whitelist;
use crate::scan::{scan, scan_found};
use crate::text;

verus! {

broadcast use vstd::seq::group_seq_axioms;

// ---------------------------------------------------------------------- acting

/// What a run without a checklist does with the groups: nothing for a plan,
/// a journaled preview for a dry run, and the real thing only when it was
/// asked for and no preview was. `acts` and `entries` are the logs before and
/// after it.
pub open spec fn groups_done(
    list: Seq<GroupModel>,
    rules: Seq<RuleModel>,
    ctx: &Ctx,
    config: &Config,
    host: &Host,
    intent: Intent,
    acts: (Seq<Act>, Seq<Act>),
    entries: (Seq<Entry>, Seq<Entry>),
    run_id: Seq<char>,
    r: Option<Summary>,
) -> bool {
    let plan = auto_plan(list, list.len() as int, rules, ctx, config, host);
    let n = plan.len() as int;
    &&& goes_on(acts)
    &&& goes_on(entries)
    &&& intent == Intent::Plan ==> entries.1 == entries.0
    &&& intent != Intent::Act ==> acts.1 == acts.0
    &&& match intent {
        Intent::Plan => true,
        Intent::Preview => previewed(
            |told: Seq<Act>| performed(plan, n, told, since(entries), "clean"@, run_id, true),
        ),
        Intent::Act => performed(
            plan,
            n,
            since(acts),
            since(entries),
            "clean"@,
            run_id,
            false,
        ),
    }
    &&& match r {
        Some(s) => intent != Intent::Plan && summed_up(s, since(entries)),
        None => intent == Intent::Plan,
    }
}

/// What is done with a selection from the checklist: the real thing, or a
/// preview of it.
pub open spec fn selection_done(
    list: Seq<GroupModel>,
    selection: Seq<(usize, usize)>,
    rules: Seq<RuleModel>,
    ctx: &Ctx,
    config: &Config,
    host: &Host,
    dry_run: bool,
    acts: (Seq<Act>, Seq<Act>),
    entries: (Seq<Entry>, Seq<Entry>),
    run_id: Seq<char>,
    r: Summary,
) -> bool {
    let n = list.len() as int;
    let plan = selected_plan(list, n, selection, rules, ctx, config, host);
    let ops = selected_ops(list, n, selection, rules, host);
    &&& goes_on(acts)
    &&& goes_on(entries)
    &&& dry_run ==> acts.1 == acts.0
    &&& if dry_run {
        previewed(
            |told: Seq<Act>|
                performed_with_helper(plan, ops, told, since(entries), run_id, true),
        )
    } else {
        performed_with_helper(plan, ops, since(acts), since(entries), run_id, false)
    }
    &&& summed_up(r, since(entries))
}

/// Acts on the groups as the flags ask.
pub fn run_groups<E: Effector, L: AuditLog>(
    list: &Vec<Group>,
    rules: &Vec<Rule>,
    ctx: &Ctx,
    config: &Config,
    host: &Host,
    yes: bool,
    dry_run: bool,
    effector: &mut E,
    log: &mut L,
    run_id: &str,
) -> (r: Option<Summary>)
    ensures
        steady(*old(effector), *final(effector)),
        final(log).readings() == old(log).readings(),
        groups_done(
            groups(list@),
            models(rules@),
            ctx,
            config,
            host,
            intended(yes, dry_run),
            (old(effector).acts(), final(effector).acts()),
            (old(log).entries(), final(log).entries()),
            run_id@,
            r,
        ),
{
    let ghost acts0 = effector.acts();
    let ghost entries0 = log.entries();
    assert(acts0.take(acts0.len() as int) =~= acts0);
    assert(entries0.take(entries0.len() as int) =~= entries0);
    match intent(yes, dry_run) {
        Intent::Plan => None,
        Intent::Preview => {
            let mut told = DryRunEffector::new();
            let summary = execute(
                list,
                rules,
                ctx,
                config,
                host,
                &mut told,
                log,
                run_id,
                true,
            );
            proof {
                let plan = auto_plan(
                    groups(list@),
                    list@.len() as int,
                    models(rules@),
                    ctx,
                    config,
                    host,
                );
                let news = log.entries().skip(entries0.len() as int);
                let acts = told.acts().skip(0);
                assert(acts =~= told.acts());
                let fits = |acts: Seq<Act>|
                    performed(plan, plan.len() as int, acts, news, "clean"@, run_id@, true);
                assert(fits(acts));
                assert(all_told(acts));
            }
            Some(summary)
        },
        Intent::Act => Some(
            execute(list, rules, ctx, config, host, effector, log, run_id, false),
        ),
    }
}

/// Whether there are acts that are only told of and fit.
pub open spec fn previewed(fits: spec_fn(Seq<Act>) -> bool) -> bool {
    exists|acts: Seq<Act>| #[trigger] all_told(acts) && fits(acts)
}

/// Acts on what was ticked.
pub fn run_selection<E: Effector, L: AuditLog>(
    list: &Vec<Group>,
    selection: &Vec<(usize, usize)>,
    rules: &Vec<Rule>,
    ctx: &Ctx,
    config: &Config,
    host: &Host,
    dry_run: bool,
    effector: &mut E,
    log: &mut L,
    run_id: &str,
) -> (r: Summary)
    ensures
        steady(*old(effector), *final(effector)),
        final(log).readings() == old(log).readings(),
        selection_done(
            groups(list@),
            selection@,
            models(rules@),
            ctx,
            config,
            host,
            dry_run,
            (old(effector).acts(), final(effector).acts()),
            (old(log).entries(), final(log).entries()),
            run_id@,
            r,
        ),
{
    let ghost acts0 = effector.acts();
    let ghost entries0 = log.entries();
    assert(acts0.take(acts0.len() as int) =~= acts0);
    if dry_run {
        let mut told = DryRunEffector::new();
        let summary = execute_selected(
            list,
            selection,
            rules,
            ctx,
            config,
            host,
            &mut told,
            log,
            run_id,
            true,
        );
        proof {
            let n = list@.len() as int;
            let plan = selected_plan(
                groups(list@),
                n,
                selection@,
                models(rules@),
                ctx,
                config,
                host,
            );
            let ops = selected_ops(groups(list@), n, selection@, models(rules@), host);
            let news = log.entries().skip(entries0.len() as int);
            let acts = told.acts().skip(0);
            assert(acts =~= told.acts());
            let fits = |acts: Seq<Act>|
                performed_with_helper(plan, ops, acts, news, run_id@, true);
            assert(fits(acts));
            assert(all_told(acts));
        }
        summary
    } else {
        execute_selected(
            list,
            selection,
            rules,
            ctx,
            config,
            host,
            effector,
            log,
            run_id,
            false,
        )
    }
}

// --------------------------------------------------------------------- the plan

/// Whether the rule of a group deletes paths.
pub open spec fn deletes_paths(id: Seq<char>, rules: Seq<RuleModel>) -> bool {
    match rule_at(rules, id, 0) {
        Some(k) => rules[k].action == Action::DeletePaths,
        None => false,
    }
}

fn is_delete_paths(id: &str, rules: &Vec<Rule>) -> (r: bool)
    ensures
        r == deletes_paths(id@, models(rules@)),
{
    match find_rule(rules, id) {
        Some(k) => {
            assert(models(rules@)[k as int] == rules@[k as int]@);
            match rules[k].action {
                Action::DeletePaths => true,
                _ => false,
            }
        },
        None => false,
    }
}

/// The first `n` candidates, one to a line.
pub open spec fn candidate_lines(list: Seq<CandidateModel>, n: int) -> Seq<char>
    decreases n,
{
    if n <= 0 {
        Seq::empty()
    } else {
        let c = list[n - 1];
        candidate_lines(list, n - 1) + ("  "@ + c.label + "  "@ + human(c.bytes as nat) + (
        if c.whitelisted {
            " (whitelisted)"@
        } else {
            ""@
        }) + "\n"@)
    }
}

fn candidate_lines_of(g: &Group) -> (r: String)
    ensures
        r@ == candidate_lines(g@.candidates, g@.candidates.len() as int),
{
    let ghost all = g@.candidates;
    let mut out = "".to_owned();
    proof {
        reveal_strlit("");
    }
    let mut i: usize = 0;
    assert(out@ =~= Seq::empty());
    while i < g.candidates.len()
        invariant
            i <= g.candidates.len(),
            all == candidates(g.candidates@),
            out@ == candidate_lines(all, i as int),
        decreases g.candidates.len() - i,
    {
        let c = &g.candidates[i];
        assert(all[i as int] == c@);
        let size = humanize_bytes(c.bytes);
        let tag = if c.whitelisted {
            " (whitelisted)"
        } else {
            ""
        };
        out.append("  ");
        out.append(c.label.as_str());
        out.append("  ");
        out.append(size.as_str());
        out.append(tag);
        out.append("\n");
        assert(out@ =~= candidate_lines(all, i + 1));
        i += 1;
    }
    out
}

/// Why a group is not cleaned without asking.
pub open spec fn footer(g: GroupModel, rules: Seq<RuleModel>) -> Seq<char> {
    if g.risk != Risk::Safe {
        "  (needs manual opt-in — not cleaned automatically)\n"@
    } else if g.requires_sudo && deletes_paths(g.rule_id, rules) {
        "  (needs root file deletion — not automated in this phase)\n"@
    } else {
        ""@
    }
}

/// What the plan tells of a group.
pub open spec fn group_text(g: GroupModel, rules: Seq<RuleModel>) -> Seq<char> {
    heading(g) + candidate_lines(g.candidates, g.candidates.len() as int) + skip_lines(
        g.skipped,
        g.skipped.len() as int,
    ) + footer(g, rules)
}

/// The groups among the first `n` of which there is anything to tell.
pub open spec fn groups_text(list: Seq<GroupModel>, n: int, rules: Seq<RuleModel>) -> Seq<char>
    decreases n,
{
    if n <= 0 {
        Seq::empty()
    } else if has_news(list[n - 1]) {
        groups_text(list, n - 1, rules) + group_text(list[n - 1], rules)
    } else {
        groups_text(list, n - 1, rules)
    }
}

/// Whether `--yes` would delete the selectable candidates of a group.
pub open spec fn counts(g: GroupModel, rules: Seq<RuleModel>) -> bool {
    g.risk == Risk::Safe && deletes_paths(g.rule_id, rules) && !g.requires_sudo
}

/// What `--yes` would free in the first `n` groups.
pub open spec fn would_free(list: Seq<GroupModel>, n: int, rules: Seq<RuleModel>) -> u64
    decreases n,
{
    if n <= 0 {
        0
    } else {
        let before = would_free(list, n - 1, rules);
        if counts(list[n - 1], rules) {
            selectable_bytes(
                list[n - 1].candidates,
                list[n - 1].candidates.len() as int,
                before,
            )
        } else {
            before
        }
    }
}

pub open spec fn plan_text(list: Seq<GroupModel>, rules: Seq<RuleModel>) -> Seq<char> {
    if any_news(list) {
        groups_text(list, list.len() as int, rules) + "\nWould free: "@ + human(
            would_free(list, list.len() as int, rules) as nat,
        )
    } else {
        "Nothing to clean."@
    }
}

/// The plan: every group with its risk, the size of each candidate, the
/// reasons for what is left out, and a total of exactly what `--yes` would
/// delete.
pub fn render_plan(list: &Vec<Group>, rules: &Vec<Rule>) -> (r: String)
    ensures
        r@ == plan_text(groups(list@), models(rules@)),
{
    if !anything_found(list) {
        return "Nothing to clean.".to_owned();
    }
    let ghost all = groups(list@);
    let ghost table = models(rules@);
    let mut out = "".to_owned();
    proof {
        reveal_strlit("");
    }
    let mut total: u64 = 0;
    let mut i: usize = 0;
    assert(out@ =~= Seq::empty());
    while i < list.len()
        invariant
            i <= list.len(),
            all == groups(list@),
            table == models(rules@),
            out@ == groups_text(all, i as int, table),
            total == would_free(all, i as int, table),
        decreases list.len() - i,
    {
        let g = &list[i];
        assert(all[i as int] == g@);
        let ghost had = out@;
        let deletes = is_delete_paths(g.rule_id.as_str(), rules);
        if g.risk == Risk::Safe && deletes && !g.requires_sudo {
            total = add_selectable(g, total);
        }
        if g.candidates.len() > 0 || g.skipped.len() > 0 {
            let head = heading_of(g);
            let body = candidate_lines_of(g);
            let left_out = skip_lines_of(g);
            let foot = if g.risk != Risk::Safe {
                "  (needs manual opt-in — not cleaned automatically)\n"
            } else if g.requires_sudo && deletes {
                "  (needs root file deletion — not automated in this phase)\n"
            } else {
                ""
            };
            out.append(head.as_str());
            out.append(body.as_str());
            out.append(left_out.as_str());
            out.append(foot);
            assert(out@ =~= had + group_text(g@, table));
        }
        i += 1;
    }
    let size = humanize_bytes(total);
    out.append("\nWould free: ");
    out.append(size.as_str());
    out
}

// -------------------------------------------------------------------- the result

/// How a run is summed up in one line.
pub open spec fn result_text(bytes: u64, ran: nat, skipped: nat, dry_run: bool) -> Seq<char> {
    if dry_run {
        "Would free "@ + human(bytes as nat) + " · "@ + counted(ran, "item"@)
            + " · dry run — nothing deleted (recorded in history)"@
    } else {
        "Freed "@ + human(bytes as nat) + " · "@ + counted(ran, "item"@) + (if skipped > 0 {
            " · "@ + text::decimal(skipped) + " skipped"@
        } else {
            ""@
        })
    }
}

/// The summary of a run on a selection.
pub fn render_result(summary: &Summary, ran: usize, skipped: usize, dry_run: bool) -> (r: String)
    ensures
        r@ == result_text(summary.bytes_freed, ran as nat, skipped as nat, dry_run),
{
    let size = humanize_bytes(summary.bytes_freed);
    let items = count_label(ran, "item");
    if dry_run {
        text::concat5(
            "Would free ",
            size.as_str(),
            " · ",
            items.as_str(),
            " · dry run — nothing deleted (recorded in history)",
        )
    } else {
        let mut line = text::concat4("Freed ", size.as_str(), " · ", items.as_str());
        if skipped > 0 {
            let digits = text::decimal_text(skipped as u64);
            let tail = text::concat3(" · ", digits.as_str(), " skipped");
            line.append(tail.as_str());
        } else {
            line.append("");
        }
        line
    }
}

/// The plan and, below it, what came of it or how to go on.
pub open spec fn human_text(
    list: Seq<GroupModel>,
    rules: Seq<RuleModel>,
    bytes: Option<u64>,
    intent: Intent,
    ran: nat,
    skipped: nat,
) -> Seq<char> {
    let plan = plan_text(list, rules);
    if plan == "Nothing to clean."@ {
        plan
    } else {
        match bytes {
            Some(b) => plan + "\n\n"@ + result_text(b, ran, skipped, intent != Intent::Act),
            None => if intent == Intent::Plan {
                plan + "\n\nRun with --dry-run for a journaled preview, or --yes to clean."@
            } else {
                plan
            },
        }
    }
}

pub open spec fn freed(s: Option<&Summary>) -> Option<u64> {
    match s {
        Some(s) => Some(s.bytes_freed),
        None => None,
    }
}

pub fn render_human(
    list: &Vec<Group>,
    rules: &Vec<Rule>,
    summary: Option<&Summary>,
    intent: Intent,
    ran: usize,
    skipped: usize,
) -> (r: String)
    ensures
        r@ == human_text(
            groups(list@),
            models(rules@),
            freed(summary),
            intent,
            ran as nat,
            skipped as nat,
        ),
{
    let mut out = render_plan(list, rules);
    if text::same(out.as_str(), "Nothing to clean.") {
        return out;
    }
    match summary {
        Some(s) => {
            let line = render_result(s, ran, skipped, intent != Intent::Act);
            out.append("\n\n");
            out.append(line.as_str());
        },
        None => if intent == Intent::Plan {
            out.append("\n\nRun with --dry-run for a journaled preview, or --yes to clean.");
        },
    }
    out
}

/// What the command has to say.
#[derive(Debug)]
pub struct CleanOutput {
    pub rendered: String,
}

/// What is said of a plan, or of a run and what its records tell.
pub open spec fn reported(
    list: Seq<GroupModel>,
    rules: Seq<RuleModel>,
    summary: Option<u64>,
    intent: Intent,
    told: Seq<RecordModel>,
    run_id: Seq<char>,
) -> Seq<char> {
    if intent == Intent::Plan {
        human_text(list, rules, summary, intent, 0, 0)
    } else {
        human_text(
            list,
            rules,
            summary,
            intent,
            ran_count(told, told.len() as int, run_id),
            skipped_count(told, told.len() as int, run_id),
        ) + notes_below(told, run_id)
    }
}

pub fn report(
    list: &Vec<Group>,
    rules: &Vec<Rule>,
    summary: Option<&Summary>,
    intent: Intent,
    told: &Vec<Record>,
    run_id: &str,
) -> (r: CleanOutput)
    ensures
        r.rendered@ == reported(
            groups(list@),
            models(rules@),
            freed(summary),
            intent,
            records(told@),
            run_id@,
        ),
{
    if intent == Intent::Plan {
        return CleanOutput { rendered: render_human(list, rules, summary, intent, 0, 0) };
    }
    let (ran, skipped, notes) = summarize_run(told, run_id);
    let text = render_human(list, rules, summary, intent, ran, skipped);
    CleanOutput { rendered: with_notes(text.as_str(), &notes) }
}

/// What is said once a selection was carried out.
pub open spec fn reported_selection(
    bytes: u64,
    told: Seq<RecordModel>,
    run_id: Seq<char>,
    dry_run: bool,
) -> Seq<char> {
    result_text(
        bytes,
        ran_count(told, told.len() as int, run_id),
        skipped_count(told, told.len() as int, run_id),
        dry_run,
    ) + notes_below(told, run_id)
}

pub fn report_selection(
    summary: &Summary,
    told: &Vec<Record>,
    run_id: &str,
    dry_run: bool,
) -> (r: CleanOutput)
    ensures
        r.rendered@ == reported_selection(summary.bytes_freed, records(told@), run_id@, dry_run),
{
    let (ran, skipped, notes) = summarize_run(told, run_id);
    let text = render_result(summary, ran, skipped, dry_run);
    assert(records(told@).len() == told@.len());
    CleanOutput { rendered: with_notes(text.as_str(), &notes) }
}

// ------------------------------------------------------------------- the command

/// Whether this is said of a run that has handed over `entries`, and with
/// these readings before and after it. Of a plan there is nothing to read up;
/// otherwise the journal is read once, when the run is over, and tells what
/// came of it, or cannot be read.
pub open spec fn said_of_run(
    list: Seq<GroupModel>,
    rules: Seq<RuleModel>,
    summary: Option<Summary>,
    intent: Intent,
    entries: Seq<Entry>,
    readings: (Seq<Reading>, Seq<Reading>),
    run_id: Seq<char>,
    r: Result<CleanOutput, String>,
) -> bool {
    let bytes = bytes_of(summary);
    if intent == Intent::Plan {
        readings.1 == readings.0 && match r {
            Ok(out) => out.rendered@ == reported(list, rules, bytes, intent, Seq::empty(), run_id),
            Err(_) => false,
        }
    } else {
        read_after(readings.0, readings.1, entries) && match (readings.1.last().found, r) {
            (Ok(told), Ok(out)) => out.rendered@ == reported(
                list,
                rules,
                bytes,
                intent,
                told,
                run_id,
            ),
            (Err(why), Err(e)) => e@ == why,
            _ => false,
        }
    }
}

/// What a summary says was freed.
pub open spec fn bytes_of(summary: Option<Summary>) -> Option<u64> {
    match summary {
        Some(s) => Some(s.bytes_freed),
        None => None,
    }
}

/// A run without a checklist: scans, does what the flags ask, and tells of
/// it.
pub fn run<R: CommandRunner, E: Effector, L: AuditLog>(
    ctx: &Ctx,
    whitelist: &Whitelist,
    env: &SafetyEnv,
    host: &Host,
    yes: bool,
    dry_run: bool,
    experimental: bool,
    runner: &mut R,
    effector: &mut E,
    log: &mut L,
    run_id: &str,
) -> (r: (Vec<Group>, Option<Summary>, Result<CleanOutput, String>))
    ensures
        final(runner).prepared() == old(runner).prepared(),
        steady(*old(effector), *final(effector)),
        scan_found(
            registry_table(experimental),
            groups(r.0@),
            ctx,
            &ctx.config,
            whitelist,
            env,
            host,
            old(runner).exchanges(),
            final(runner).exchanges(),
        ),
        groups_done(
            groups(r.0@),
            registry_table(experimental),
            ctx,
            &ctx.config,
            host,
            intended(yes, dry_run),
            (old(effector).acts(), final(effector).acts()),
            (old(log).entries(), final(log).entries()),
            run_id@,
            r.1,
        ),
        said_of_run(
            groups(r.0@),
            registry_table(experimental),
            r.1,
            intended(yes, dry_run),
            final(log).entries(),
            (old(log).readings(), final(log).readings()),
            run_id@,
            r.2,
        ),
{
    let rules = registry(experimental);
    let list = scan(&rules, ctx, &ctx.config, whitelist, env, host, runner);
    let what = intent(yes, dry_run);
    let summary = run_groups(
        &list,
        &rules,
        ctx,
        &ctx.config,
        host,
        yes,
        dry_run,
        effector,
        log,
        run_id,
    );
    let told = if what == Intent::Plan {
        Ok(Vec::new())
    } else {
        let told = log.read_all();
        assert(log.readings().drop_last() =~= old(log).readings());
        told
    };
    let out = match told {
        Ok(told) => {
            assert(what == Intent::Plan ==> records(told@) =~= Seq::empty());
            Ok(report(&list, &rules, summary.as_ref(), what, &told, run_id))
        },
        Err(e) => Err(e),
    };
    (list, summary, out)
}

/// Whether this is said of a selection that was carried out: the journal is
/// read once, when all of `entries` have been handed over.
pub open spec fn said_of_selection(
    summary: Summary,
    dry_run: bool,
    entries: Seq<Entry>,
    readings: (Seq<Reading>, Seq<Reading>),
    run_id: Seq<char>,
    r: Result<CleanOutput, String>,
) -> bool {
    read_after(readings.0, readings.1, entries) && match (readings.1.last().found, r) {
        (Ok(told), Ok(out)) => out.rendered@ == reported_selection(
            summary.bytes_freed,
            told,
            run_id,
            dry_run,
        ),
        (Err(why), Err(e)) => e@ == why,
        _ => false,
    }
}

/// Carries out what was ticked on the checklist, and tells of it.
pub fn render_after_selection<E: Effector, L: AuditLog>(
    list: &Vec<Group>,
    selection: &Vec<(usize, usize)>,
    rules: &Vec<Rule>,
    ctx: &Ctx,
    host: &Host,
    dry_run: bool,
    effector: &mut E,
    log: &mut L,
    run_id: &str,
) -> (r: (Summary, Result<CleanOutput, String>))
    ensures
        steady(*old(effector), *final(effector)),
        selection_done(
            groups(list@),
            selection@,
            models(rules@),
            ctx,
            &ctx.config,
            host,
            dry_run,
            (old(effector).acts(), final(effector).acts()),
            (old(log).entries(), final(log).entries()),
            run_id@,
            r.0,
        ),
        said_of_selection(
            r.0,
            dry_run,
            final(log).entries(),
            (old(log).readings(), final(log).readings()),
            run_id@,
            r.1,
        ),
{
    let summary = run_selection(
        list,
        selection,
        rules,
        ctx,
        &ctx.config,
        host,
        dry_run,
        effector,
        log,
        run_id,
    );
    let told = log.read_all();
    assert(log.readings().drop_last() =~= old(log).readings());
    let out = match told {
        Ok(told) => Ok(report_selection(&summary, &told, run_id, dry_run)),
        Err(e) => Err(e),
    };
    (summary, out)
}

// ------------------------------------------------------------------------- laws

/// The bytes that the deletions among the steps are expected to free, on top
/// of `from`; the largest number there is where they add up to more.
pub open spec fn deleted_bytes(steps: Seq<StepModel>, from: u64) -> u64
    decreases steps.len(),
{
    if steps.len() == 0 {
        from
    } else {
        let before = deleted_bytes(steps.drop_last(), from);
        match steps.last() {
            StepModel::Delete { rule_id: _, allowed: _, path: _, bytes } => if before + bytes
                > u64::MAX {
                u64::MAX
            } else {
                (before + bytes) as u64
            },
            _ => before,
        }
    }
}

pub proof fn lemma_deleted_bytes_of_both(a: Seq<StepModel>, b: Seq<StepModel>, from: u64)
    ensures
        deleted_bytes(a + b, from) == deleted_bytes(b, deleted_bytes(a, from)),
    decreases b.len(),
{
    if b.len() == 0 {
        assert(a + b =~= a);
    } else {
        lemma_deleted_bytes_of_both(a, b.drop_last(), from);
        assert((a + b).drop_last() =~= a + b.drop_last());
        assert((a + b).last() == b.last());
    }
}

proof fn lemma_no_deletes(steps: Seq<StepModel>, from: u64)
    requires
        forall|k: int| 0 <= k < steps.len() ==> !(#[trigger] steps[k] is Delete),
    ensures
        deleted_bytes(steps, from) == from,
    decreases steps.len(),
{
    if steps.len() > 0 {
        let rest = steps.drop_last();
        assert forall|k: int| 0 <= k < rest.len() implies !(#[trigger] rest[k] is Delete) by {
            assert(rest[k] == steps[k]);
        }
        lemma_no_deletes(rest, from);
        assert(!(steps[steps.len() - 1] is Delete));
    }
}

pub proof fn lemma_deletes_add_up(
    list: Seq<CandidateModel>,
    n: int,
    rule_id: Seq<char>,
    allowed: Seq<Seq<char>>,
    from: u64,
)
    requires
        0 <= n <= list.len(),
        forall|k: int| 0 <= k < list.len() ==> (#[trigger] list[k]).path is Some,
    ensures
        deleted_bytes(delete_steps(list, selectable_marks(list), n, rule_id, allowed), from)
            == selectable_bytes(list, n, from),
    decreases n,
{
    if n > 0 {
        lemma_deletes_add_up(list, n - 1, rule_id, allowed, from);
        let marked = selectable_marks(list);
        let before = delete_steps(list, marked, n - 1, rule_id, allowed);
        let now = delete_steps(list, marked, n, rule_id, allowed);
        assert(list[n - 1].path is Some);
        if marked[n - 1] {
            assert(now.drop_last() =~= before);
        }
    }
}

/// Whether a group is what a scan makes for its rule: the privilege is the
/// rule's, and what is deleted has a path.
pub open spec fn fits_rule(g: GroupModel, rules: Seq<RuleModel>) -> bool {
    match rule_at(rules, g.rule_id, 0) {
        Some(k) => g.requires_sudo == rules[k].requires_sudo && (rules[k].action
            == Action::DeletePaths ==> forall|i: int|
            0 <= i < g.candidates.len() ==> (#[trigger] g.candidates[i]).path is Some),
        None => true,
    }
}

proof fn lemma_total(
    list: Seq<GroupModel>,
    n: int,
    rules: Seq<RuleModel>,
    ctx: &Ctx,
    config: &Config,
    host: &Host,
)
    requires
        0 <= n <= list.len(),
        forall|i: int| 0 <= i < list.len() ==> fits_rule(#[trigger] list[i], rules),
    ensures
        would_free(list, n, rules) == deleted_bytes(
            auto_plan(list, n, rules, ctx, config, host),
            0,
        ),
    decreases n,
{
    if n > 0 {
        lemma_total(list, n - 1, rules, ctx, config, host);
        let g = list[n - 1];
        assert(fits_rule(g, rules));
        let before = auto_plan(list, n - 1, rules, ctx, config, host);
        match rule_at(rules, g.rule_id, 0) {
            Some(k) => {
                let more = auto_steps(rules[k], g, ctx, config, host);
                lemma_deleted_bytes_of_both(before, more, 0);
                if counts(g, rules) {
                    lemma_deletes_add_up(
                        g.candidates,
                        g.candidates.len() as int,
                        rules[k].id,
                        expanded_all(rules[k].allowed_prefixes, ctx.root@, ctx.home@),
                        deleted_bytes(before, 0),
                    );
                } else {
                    lemma_no_deletes(more, deleted_bytes(before, 0));
                }
            },
            None => {},
        }
    }
}

/// The total of the plan is exactly what `--yes` sets out to delete.
pub proof fn law_plan_total_is_what_yes_deletes(
    list: Seq<GroupModel>,
    rules: Seq<RuleModel>,
    ctx: &Ctx,
    config: &Config,
    host: &Host,
)
    requires
        forall|i: int| 0 <= i < list.len() ==> fits_rule(#[trigger] list[i], rules),
    ensures
        would_free(list, list.len() as int, rules) == deleted_bytes(
            auto_plan(list, list.len() as int, rules, ctx, config, host),
            0,
        ),
{
    lemma_total(list, list.len() as int, rules, ctx, config, host);
}


/// Where the journal holds a run as it was, what is said of it is said of
/// exactly what the run put on record.
pub proof fn law_a_run_is_told_in_full(
    list: Seq<GroupModel>,
    rules: Seq<RuleModel>,
    ctx: &Ctx,
    config: &Config,
    host: &Host,
    intent: Intent,
    acts: (Seq<Act>, Seq<Act>),
    entries: (Seq<Entry>, Seq<Entry>),
    readings: (Seq<Reading>, Seq<Reading>),
    earlier: Seq<RecordModel>,
    run_id: Seq<char>,
    summary: Option<Summary>,
    r: Result<CleanOutput, String>,
)
    requires
        intent != Intent::Plan,
        groups_done(list, rules, ctx, config, host, intent, acts, entries, run_id, summary),
        said_of_run(list, rules, summary, intent, entries.1, readings, run_id, r),
        kept_in_full(earlier, entries, readings.1.last(), run_id),
    ensures
        r is Ok,
        r->Ok_0.rendered@ == reported(
            list,
            rules,
            bytes_of(summary),
            intent,
            handed(since(entries)),
            run_id,
        ),
{
    lemma_groups_done_is_of_run(
        list,
        rules,
        ctx,
        config,
        host,
        intent,
        acts,
        entries,
        run_id,
        summary,
    );
    law_nothing_is_left_untold(earlier, entries, readings.1.last(), run_id);
}

/// Where the journal holds a run on a selection as it was, what is said of it
/// is said of exactly what the run put on record.
pub proof fn law_a_selection_is_told_in_full(
    list: Seq<GroupModel>,
    selection: Seq<(usize, usize)>,
    rules: Seq<RuleModel>,
    ctx: &Ctx,
    config: &Config,
    host: &Host,
    dry_run: bool,
    acts: (Seq<Act>, Seq<Act>),
    entries: (Seq<Entry>, Seq<Entry>),
    readings: (Seq<Reading>, Seq<Reading>),
    earlier: Seq<RecordModel>,
    run_id: Seq<char>,
    summary: Summary,
    r: Result<CleanOutput, String>,
)
    requires
        selection_done(
            list,
            selection,
            rules,
            ctx,
            config,
            host,
            dry_run,
            acts,
            entries,
            run_id,
            summary,
        ),
        said_of_selection(summary, dry_run, entries.1, readings, run_id, r),
        kept_in_full(earlier, entries, readings.1.last(), run_id),
    ensures
        r is Ok,
        r->Ok_0.rendered@ == reported_selection(
            summary.bytes_freed,
            handed(since(entries)),
            run_id,
            dry_run,
        ),
{
    lemma_selection_done_is_of_run(
        list,
        selection,
        rules,
        ctx,
        config,
        host,
        dry_run,
        acts,
        entries,
        run_id,
        summary,
    );
    law_nothing_is_left_untold(earlier, entries, readings.1.last(), run_id);
}

pub proof fn lemma_groups_done_is_of_run(
    list: Seq<GroupModel>,
    rules: Seq<RuleModel>,
    ctx: &Ctx,
    config: &Config,
    host: &Host,
    intent: Intent,
    acts: (Seq<Act>, Seq<Act>),
    entries: (Seq<Entry>, Seq<Entry>),
    run_id: Seq<char>,
    summary: Option<Summary>,
)
    requires
        intent != Intent::Plan,
        groups_done(list, rules, ctx, config, host, intent, acts, entries, run_id, summary),
    ensures
        goes_on(entries),
        of_run(handed(since(entries)), run_id),
{
    let plan = auto_plan(list, list.len() as int, rules, ctx, config, host);
    let n = plan.len() as int;
    let news = since(entries);
    if intent == Intent::Preview {
        let told = choose|told: Seq<Act>| #[trigger]
            all_told(told) && performed(plan, n, told, news, "clean"@, run_id, true);
        lemma_performed_is_of_run(plan, n, told, news, "clean"@, run_id, true);
    } else {
        lemma_performed_is_of_run(plan, n, since(acts), news, "clean"@, run_id, false);
    }
}

pub proof fn lemma_selection_done_is_of_run(
    list: Seq<GroupModel>,
    selection: Seq<(usize, usize)>,
    rules: Seq<RuleModel>,
    ctx: &Ctx,
    config: &Config,
    host: &Host,
    dry_run: bool,
    acts: (Seq<Act>, Seq<Act>),
    entries: (Seq<Entry>, Seq<Entry>),
    run_id: Seq<char>,
    summary: Summary,
)
    requires
        selection_done(
            list,
            selection,
            rules,
            ctx,
            config,
            host,
            dry_run,
            acts,
            entries,
            run_id,
            summary,
        ),
    ensures
        goes_on(entries),
        of_run(handed(since(entries)), run_id),
{
    let plan = selected_plan(list, list.len() as int, selection, rules, ctx, config, host);
    let ops = selected_ops(list, list.len() as int, selection, rules, host);
    let news = since(entries);
    if dry_run {
        let told = choose|told: Seq<Act>| #[trigger]
            all_told(told) && performed_with_helper(plan, ops, told, news, run_id, true);
        lemma_performed_with_helper_is_of_run(plan, ops, told, news, run_id, true);
    } else {
        lemma_performed_with_helper_is_of_run(plan, ops, since(acts), news, run_id, false);
    }
}

proof fn lemma_candidate_shown(list: Seq<CandidateModel>, n: int, c: int)
    requires
        0 <= c < n <= list.len(),
    ensures
        text::contains(
            candidate_lines(list, n),
            "  "@ + list[c].label + "  "@ + human(list[c].bytes as nat),
        ),
    decreases n,
{
    let p = "  "@ + list[c].label + "  "@ + human(list[c].bytes as nat);
    let before = candidate_lines(list, n - 1);
    text::lemma_contains_on(p);
    if c < n - 1 {
        lemma_candidate_shown(list, n - 1, c);
    } else {
        let x = list[n - 1];
        let line = p + (if x.whitelisted {
            " (whitelisted)"@
        } else {
            ""@
        }) + "\n"@;
        assert(text::contains(line, p));
        text::lemma_contains_more(before, line, p);
    }
}

proof fn lemma_group_shown(list: Seq<GroupModel>, n: int, rules: Seq<RuleModel>, g: int, p: Seq<char>)
    requires
        0 <= g < n <= list.len(),
        has_news(list[g]),
        text::contains(group_text(list[g], rules), p),
    ensures
        text::contains(groups_text(list, n, rules), p),
    decreases n,
{
    text::lemma_contains_on(p);
    if g < n - 1 {
        lemma_group_shown(list, n - 1, rules, g, p);
    } else {
        text::lemma_contains_more(groups_text(list, n - 1, rules), group_text(list[g], rules), p);
    }
}

/// The plan shows every candidate with its size, everything that is left out
/// with the reason, and what would be freed.
pub proof fn law_the_plan_shows_everything(
    list: Seq<GroupModel>,
    rules: Seq<RuleModel>,
    g: int,
    c: int,
)
    requires
        0 <= g < list.len(),
    ensures
        0 <= c < list[g].candidates.len() ==> text::contains(
            plan_text(list, rules),
            "  "@ + list[g].candidates[c].label + "  "@ + human(
                list[g].candidates[c].bytes as nat,
            ),
        ),
        0 <= c < list[g].skipped.len() ==> text::contains(
            plan_text(list, rules),
            "  "@ + list[g].skipped[c].0 + "  skipped: "@ + list[g].skipped[c].1 + "\n"@,
        ),
        has_news(list[g]) ==> text::contains(
            plan_text(list, rules),
            "\nWould free: "@ + human(would_free(list, list.len() as int, rules) as nat),
        ),
{
    let n = list.len() as int;
    let x = list[g];
    let total = "\nWould free: "@ + human(would_free(list, n, rules) as nat);
    let all = groups_text(list, n, rules);
    if has_news(x) {
        assert(any_news(list));
        text::lemma_contains_on(total);
        text::lemma_contains_more(all, total, total);
        assert(all + "\nWould free: "@ + human(would_free(list, n, rules) as nat) =~= all + total);
    }
    if 0 <= c < x.candidates.len() {
        let p = "  "@ + x.candidates[c].label + "  "@ + human(x.candidates[c].bytes as nat);
        let m = x.candidates.len() as int;
        lemma_candidate_shown(x.candidates, m, c);
        text::lemma_contains_on(p);
        text::lemma_contains_more(heading(x), candidate_lines(x.candidates, m), p);
        assert(text::contains(group_text(x, rules), p));
        lemma_group_shown(list, n, rules, g, p);
        assert(text::contains(all + "\nWould free: "@, p));
    }
    if 0 <= c < x.skipped.len() {
        let p = "  "@ + x.skipped[c].0 + "  skipped: "@ + x.skipped[c].1 + "\n"@;
        let m = x.skipped.len() as int;
        let head = heading(x) + candidate_lines(x.candidates, x.candidates.len() as int);
        lemma_skip_shown(x.skipped, m, c);
        text::lemma_contains_on(p);
        text::lemma_contains_more(head, skip_lines(x.skipped, m), p);
        assert(text::contains(group_text(x, rules), p));
        lemma_group_shown(list, n, rules, g, p);
        assert(text::contains(all + "\nWould free: "@, p));
    }
}

proof fn lemma_skip_shown(list: Seq<(Seq<char>, Seq<char>)>, n: int, c: int)
    requires
        0 <= c < n <= list.len(),
    ensures
        text::contains(
            skip_lines(list, n),
            "  "@ + list[c].0 + "  skipped: "@ + list[c].1 + "\n"@,
        ),
{
    law_what_is_left_out_is_shown(list, n, c, seq![Seq::empty()], 1, 0);
}

/// A run is summed up by what it freed, how many items it dealt with, and how
/// many it skipped; a dry run by what it would free.
pub proof fn law_results_tell_what_was_freed(bytes: u64, ran: nat, skipped: nat)
    ensures
        result_text(bytes, ran, 0, false) == "Freed "@ + human(bytes as nat) + " · "@ + counted(
            ran,
            "item"@,
        ),
        skipped > 0 ==> result_text(bytes, ran, skipped, false) == "Freed "@ + human(bytes as nat)
            + " · "@ + counted(ran, "item"@) + (" · "@ + text::decimal(skipped) + " skipped"@),
        result_text(bytes, ran, skipped, true) == "Would free "@ + human(bytes as nat) + " · "@
            + counted(ran, "item"@) + " · dry run — nothing deleted (recorded in history)"@,
{
    reveal_strlit("");
    let s = "Freed "@ + human(bytes as nat) + " · "@ + counted(ran, "item"@);
    assert(s + ""@ =~= s);
}

/// A group that is not Safe, or that takes root's power to delete, is told to
/// be left alone.
pub proof fn law_what_needs_a_choice_is_told(g: GroupModel, rules: Seq<RuleModel>, k: int)
    requires
        0 <= k < rules.len(),
        rules[k].id == g.rule_id,
        forall|j: int| 0 <= j < k ==> (#[trigger] rules[j]).id != g.rule_id,
    ensures
        g.risk != Risk::Safe ==> footer(g, rules)
            == "  (needs manual opt-in — not cleaned automatically)\n"@,
        g.risk == Risk::Safe && g.requires_sudo && rules[k].action == Action::DeletePaths
            ==> footer(g, rules)
            == "  (needs root file deletion — not automated in this phase)\n"@,
        g.risk == Risk::Safe && !(g.requires_sudo && rules[k].action == Action::DeletePaths)
            ==> footer(g, rules) == ""@,
        counts(g, rules) <==> g.risk == Risk::Safe && !g.requires_sudo && rules[k].action
            == Action::DeletePaths,
{
    lemma_first_of_id(rules, g.rule_id, k, 0);
}

proof fn lemma_first_of_id(rules: Seq<RuleModel>, id: Seq<char>, k: int, from: int)
    requires
        0 <= from <= k < rules.len(),
        rules[k].id == id,
        forall|j: int| 0 <= j < k ==> (#[trigger] rules[j]).id != id,
    ensures
        rule_at(rules, id, from) == Some(k),
    decreases k - from,
{
    if from < k {
        lemma_first_of_id(rules, id, k, from + 1);
    }
}

} // verus!

//! The two most dangerous rules: btrfs snapshot deletion via `snapper`.
//! `snapshots.snapper_cleanup` runs snapper's own retention algorithm per
//! config; `snapshots.snapper_manual` lets a person delete specific
//! snapshots, with hard exclusions (booted snapshot, default snapshot,
//! snapshot 0, unpaired pre/post) enforced in the detector and the builder.
//! These candidates carry no path at all, so there is nothing on disk for the
//! safety module to check: the exclusions here are the safety net.

use vstd::prelude::*;

use crate::ctx::Ctx;
use crate::host;
use crate::host::{command_exists, Host};
use crate::item::{candidates, fresh, skip_view, skips, Candidate, CandidateModel, Risk, Skip};
use crate::order;
use crate::rules::{
    cmds, models, strs, Action, Applicability, ApplicabilityModel, CmdModel, CmdSpec, Condition,
    Detector, DetectorModel, NotingFinder, RefusingCommands, Rule, RuleModel, SelectedCommands,
};
use crate::runner::{CommandRunner, Exchange};
use crate::snapper;
use crate::snapper::{
    list_configs, list_snapshots, protected_snapshot_numbers, LimineState, SnapType, Snapshot,
    SnapshotModel,
};
use crate::text;
use crate::text::{chars_of, concat2, concat3, concat4, decimal_text};

verus! {

broadcast use vstd::seq::group_seq_axioms;

pub const CLEANUP_NOTES: &'static str =
    "Runs snapper's own 'number' cleanup algorithm per config, respecting each config's own retention settings — this is the recommended way to reclaim snapshot space. If limine-snapper-sync is active, boot entries re-sync automatically afterwards; if it's installed but inactive, run it manually after cleanup.";

pub const MANUAL_NOTES: &'static str =
    "Deletes exactly the snapshots you select. Snapshot 0 (snapper's 'current system' pseudo-snapshot), the booted snapshot, and the current default subvolume snapshot are never offered. A pre/post pair must be selected together, or that whole config is refused — nothing partial is ever deleted. Same limine-snapper-sync guidance as the cleanup rule above. Booted-snapshot detection is still pending verification on a real machine/VM.";

/// A rule on snapshots.
pub open spec fn snapper_rule(
    id: Seq<char>,
    title: Seq<char>,
    finder: NotingFinder,
    action: Action,
    notes: Seq<char>,
) -> RuleModel {
    RuleModel {
        id,
        title,
        risk: Risk::Risky,
        requires_sudo: true,
        applicable: ApplicabilityModel::Fn(Condition::Snapper),
        allowed_prefixes: Seq::empty(),
        detector: DetectorModel::FnWithSkips(finder),
        action,
        notes,
    }
}

fn rule(
    id: &'static str,
    title: &'static str,
    finder: NotingFinder,
    action: Action,
    notes: &'static str,
) -> (r: Rule)
    ensures
        r@ == snapper_rule(id@, title@, finder, action, notes@),
{
    let r = Rule {
        id,
        title,
        risk: Risk::Risky,
        requires_sudo: true,
        applicable: Applicability::Fn(Condition::Snapper),
        allowed_prefixes: Vec::new(),
        detector: Detector::FnWithSkips(finder),
        action,
        notes,
    };
    assert(strs(r.allowed_prefixes@) =~= Seq::empty());
    r
}

pub open spec fn table() -> Seq<RuleModel> {
    seq![
        snapper_rule(
            "snapshots.snapper_cleanup"@,
            "Snapper snapshot cleanup"@,
            NotingFinder::SnapperCleanup,
            Action::CmdSelected(SelectedCommands::SnapperCleanup),
            CLEANUP_NOTES@,
        ),
        snapper_rule(
            "snapshots.snapper_manual"@,
            "Snapper snapshots (manual delete)"@,
            NotingFinder::SnapperManual,
            Action::CmdSelectedWithSkips(RefusingCommands::SnapperManual),
            MANUAL_NOTES@,
        ),
    ]
}

pub fn rules() -> (r: Vec<Rule>)
    ensures
        models(r@) == table(),
{
    let r = vec![
        rule(
            "snapshots.snapper_cleanup",
            "Snapper snapshot cleanup",
            NotingFinder::SnapperCleanup,
            Action::CmdSelected(SelectedCommands::SnapperCleanup),
            CLEANUP_NOTES,
        ),
        rule(
            "snapshots.snapper_manual",
            "Snapper snapshots (manual delete)",
            NotingFinder::SnapperManual,
            Action::CmdSelectedWithSkips(RefusingCommands::SnapperManual),
            MANUAL_NOTES,
        ),
    ];
    assert(models(r@) =~= table());
    r
}

pub open spec fn snapper_applies(ctx: &Ctx, host: &Host) -> bool {
    host::available("snapper"@, ctx, host) && ctx.config.snapshots.manage
}

pub fn snapper_applicable(ctx: &Ctx, host: &Host) -> (r: bool)
    ensures
        r == snapper_applies(ctx, host),
{
    command_exists("snapper", ctx, host) && ctx.config.snapshots.manage
}

// -------------------------------------------------------------- config names

pub open spec fn config_char(c: char) -> bool {
    ||| 'a' <= c <= 'z'
    ||| 'A' <= c <= 'Z'
    ||| '0' <= c <= '9'
    ||| c == '-'
    ||| c == '_'
    ||| c == '.'
}

/// A config name is a safe token before it is ever placed into
/// `snapper -c <name> ...`: not empty, ASCII letters, digits, `-`, `_` and
/// `.` only, and never starting with `-`, so that it cannot be mistaken for a
/// flag.
pub open spec fn valid_config_name(name: Seq<char>) -> bool {
    &&& name.len() > 0
    &&& name[0] != '-'
    &&& forall|i: int| 0 <= i < name.len() ==> config_char(#[trigger] name[i])
}

pub fn is_valid_config_name(name: &str) -> (r: bool)
    ensures
        r == valid_config_name(name@),
{
    let v = chars_of(name);
    if v.len() == 0 || v[0] == '-' {
        return false;
    }
    let mut i: usize = 0;
    while i < v.len()
        invariant
            i <= v.len(),
            v@ == name@,
            forall|k: int| 0 <= k < i ==> config_char(#[trigger] v@[k]),
        decreases v.len() - i,
    {
        let c = v[i];
        let ok = ('a' <= c && c <= 'z') || ('A' <= c && c <= 'Z') || ('0' <= c && c <= '9') || c
            == '-' || c == '_' || c == '.';
        if !ok {
            assert(!config_char(name@[i as int]));
            return false;
        }
        i += 1;
    }
    true
}

/// The note on a config whose name is not safe, given instead of offering it.
pub open spec fn invalid_name_note(name: Seq<char>) -> (Seq<char>, Seq<char>) {
    (
        "snapper config "@ + name,
        "config name contains characters unsafe to pass to snapper — skipped"@,
    )
}

pub fn invalid_config_name_skip(name: &str) -> (r: Skip)
    ensures
        skip_view(r) == invalid_name_note(name@),
{
    (
        concat2("snapper config ", name),
        "config name contains characters unsafe to pass to snapper — skipped".to_owned(),
    )
}

/// How many of the first `n` configs have a safe name.
pub open spec fn valid_count(configs: Seq<(Seq<char>, Seq<char>)>, n: int) -> int
    decreases n,
{
    if n <= 0 {
        0
    } else {
        valid_count(configs, n - 1) + (if valid_config_name(configs[n - 1].0) {
            1int
        } else {
            0int
        })
    }
}

pub proof fn lemma_valid_count(configs: Seq<(Seq<char>, Seq<char>)>, k: int, n: int)
    requires
        0 <= k <= n,
    ensures
        0 <= valid_count(configs, k) <= valid_count(configs, n),
    decreases n,
{
    if k < n {
        lemma_valid_count(configs, k, n - 1);
    } else if n > 0 {
        lemma_valid_count(configs, n - 1, n - 1);
    }
}

/// Whether the commands of `log` from `base` on list the snapshots of each
/// config with a safe name among the first `n`, in order; the others are
/// never handed to snapper.
pub open spec fn listed(
    configs: Seq<(Seq<char>, Seq<char>)>,
    n: int,
    log: Seq<Exchange>,
    base: int,
) -> bool {
    forall|k: int|
        #![trigger configs[k]]
        0 <= k < n && valid_config_name(configs[k].0) ==> log[base + valid_count(configs, k)].argv
            == snapper::list_argv(configs[k].0)
}

/// The notes on the first `n` configs.
pub open spec fn name_notes(configs: Seq<(Seq<char>, Seq<char>)>, n: int) -> Seq<
    (Seq<char>, Seq<char>),
>
    decreases n,
{
    if n <= 0 {
        Seq::empty()
    } else if valid_config_name(configs[n - 1].0) {
        name_notes(configs, n - 1)
    } else {
        name_notes(configs, n - 1).push(invalid_name_note(configs[n - 1].0))
    }
}

// ------------------------------------------------- snapshots.snapper_cleanup

pub open spec fn limine_suffix(state: LimineState) -> Seq<char> {
    match state {
        LimineState::Present { active } => if active {
            " — limine boot entries re-sync automatically"@
        } else {
            " — WARNING: limine-snapper-sync inactive, run it manually afterwards"@
        },
        LimineState::Absent => ""@,
    }
}

pub fn limine_cleanup_suffix(state: LimineState) -> (r: &'static str)
    ensures
        r@ == limine_suffix(state),
{
    match state {
        LimineState::Present { active } => if active {
            " — limine boot entries re-sync automatically"
        } else {
            " — WARNING: limine-snapper-sync inactive, run it manually afterwards"
        },
        LimineState::Absent => "",
    }
}

pub open spec fn cleanup_label(name: Seq<char>, count: nat, suffix: Seq<char>) -> Seq<char> {
    "run snapper cleanup 'number' for config "@ + name + " ("@ + text::decimal(count)
        + " snapshots)"@ + suffix
}

fn cleanup_label_text(name: &str, count: usize, suffix: &str) -> (r: String)
    ensures
        r@ == cleanup_label(name@, count as nat, suffix@),
{
    let digits = decimal_text(count as u64);
    let mut out = concat4(
        "run snapper cleanup 'number' for config ",
        name,
        " (",
        digits.as_str(),
    );
    out.append(" snapshots)");
    out.append(suffix);
    out
}

/// How many snapshots a listing came to; none where it failed.
pub open spec fn count_in(e: Exchange, name: Seq<char>) -> nat {
    match snapper::snapshots_reply(e.reply, name) {
        Ok(list) => list.len(),
        Err(_) => 0,
    }
}

/// One candidate for each config with a safe name among the first `n`.
pub open spec fn cleanup_candidates(
    configs: Seq<(Seq<char>, Seq<char>)>,
    n: int,
    log: Seq<Exchange>,
    base: int,
    suffix: Seq<char>,
) -> Seq<CandidateModel>
    decreases n,
{
    if n <= 0 {
        Seq::empty()
    } else {
        let before = cleanup_candidates(configs, n - 1, log, base, suffix);
        let name = configs[n - 1].0;
        if valid_config_name(name) {
            let count = count_in(log[base + valid_count(configs, n - 1)], name);
            before.push(fresh(None, cleanup_label(name, count, suffix), 0, Risk::Risky))
        } else {
            before
        }
    }
}

proof fn lemma_cleanup_prefix(
    configs: Seq<(Seq<char>, Seq<char>)>,
    n: int,
    log: Seq<Exchange>,
    more: Seq<Exchange>,
    base: int,
    suffix: Seq<char>,
)
    requires
        0 <= n,
        0 <= base,
        base + valid_count(configs, n) <= log.len() <= more.len(),
        more.take(log.len() as int) == log,
    ensures
        cleanup_candidates(configs, n, log, base, suffix) == cleanup_candidates(
            configs,
            n,
            more,
            base,
            suffix,
        ),
        listed(configs, n, log, base) ==> listed(configs, n, more, base),
    decreases n,
{
    assert forall|i: int| 0 <= i < log.len() implies log[i] == more[i] by {
        assert(more.take(log.len() as int)[i] == more[i]);
    }
    assert forall|k: int| #![trigger configs[k]] 0 <= k < n && valid_config_name(configs[k].0) implies 0
        <= base + valid_count(configs, k) < log.len() by {
        lemma_valid_count(configs, k, k);
        lemma_valid_count(configs, k + 1, n);
    }
    if n > 0 {
        lemma_valid_count(configs, n - 1, n);
        lemma_cleanup_prefix(configs, n - 1, log, more, base, suffix);
        if valid_config_name(configs[n - 1].0) {
            assert(0 <= base + valid_count(configs, n - 1) < log.len());
        }
    }
}

/// Whether the commands of `log` from `start` on are those of the cleanup
/// detector: the configs first, and only where they can be listed the state
/// of limine and the snapshots of each config.
pub open spec fn cleanup_asked(log: Seq<Exchange>, start: int) -> bool {
    &&& start < log.len()
    &&& log[start].argv == snapper::list_configs_argv()
    &&& match snapper::configs_reply(log[start].reply) {
        Err(_) => log.len() == start + 1,
        Ok(configs) => {
            let base = start + 1 + snapper::limine_steps(log, start + 1);
            &&& snapper::limine_asked(log, start + 1)
            &&& log.len() == base + valid_count(configs, configs.len() as int)
            &&& listed(configs, configs.len() as int, log, base)
        },
    }
}

/// What the cleanup detector makes of the answers.
pub open spec fn cleanup_found(log: Seq<Exchange>, start: int) -> (
    Seq<CandidateModel>,
    Seq<(Seq<char>, Seq<char>)>,
) {
    match snapper::configs_reply(log[start].reply) {
        Err(_) => (Seq::empty(), Seq::empty()),
        Ok(configs) => (
            cleanup_candidates(
                configs,
                configs.len() as int,
                log,
                start + 1 + snapper::limine_steps(log, start + 1),
                limine_suffix(snapper::limine_state(log, start + 1)),
            ),
            name_notes(configs, configs.len() as int),
        ),
    }
}

pub fn cleanup_detector<R: CommandRunner>(runner: &mut R) -> (r: (Vec<Candidate>, Vec<Skip>))
    ensures
        final(runner).prepared() == old(runner).prepared(),
        final(runner).exchanges().len() >= old(runner).exchanges().len(),
        final(runner).exchanges().take(old(runner).exchanges().len() as int) == old(
            runner,
        ).exchanges(),
        cleanup_asked(final(runner).exchanges(), old(runner).exchanges().len() as int),
        (candidates(r.0@), skips(r.1@)) == cleanup_found(
            final(runner).exchanges(),
            old(runner).exchanges().len() as int,
        ),
{
    let ghost before = runner.exchanges();
    let ghost start = before.len() as int;
    let mut found: Vec<Candidate> = Vec::new();
    let mut notes: Vec<Skip> = Vec::new();
    assert(candidates(found@) =~= Seq::empty());
    assert(skips(notes@) =~= Seq::empty());
    let list = match list_configs(runner) {
        Ok(list) => list,
        Err(_) => {
            assert(runner.exchanges().take(start) =~= before);
            return (found, notes);
        },
    };
    let ghost first = runner.exchanges();
    let ghost all = snapper::configs(list@);
    let state = snapper::limine_sync_state(runner);
    let ghost second = runner.exchanges();
    let ghost base = second.len() as int;
    proof {
        assert(second.take(first.len() as int) == first);
        assert(second[start] == first[start]) by {
            assert(second.take(first.len() as int)[start] == second[start]);
        }
        assert(second.take(start) =~= before) by {
            assert(second.take(start) =~= second.take(first.len() as int).take(start));
            assert(first.take(start) =~= first.drop_last());
        }
    }
    let suffix = limine_cleanup_suffix(state);
    let mut i: usize = 0;
    while i < list.len()
        invariant
            i <= list.len(),
            0 <= start,
            all == snapper::configs(list@),
            base == second.len(),
            base <= runner.exchanges().len(),
            runner.exchanges().take(base) == second,
            runner.prepared() == old(runner).prepared(),
            runner.exchanges().len() == base + valid_count(all, i as int),
            listed(all, i as int, runner.exchanges(), base),
            candidates(found@) == cleanup_candidates(
                all,
                i as int,
                runner.exchanges(),
                base,
                suffix@,
            ),
            skips(notes@) == name_notes(all, i as int),
        decreases list.len() - i,
    {
        let name = list[i].name.as_str();
        assert(all[i as int] == snapper::config_view(list@[i as int]));
        let ghost had = found@;
        let ghost noted = notes@;
        let ghost log = runner.exchanges();
        if !is_valid_config_name(name) {
            notes.push(invalid_config_name_skip(name));
            assert(skips(notes@) =~= skips(noted).push(invalid_name_note(name@)));
        } else {
            let count = match list_snapshots(runner, name) {
                Ok(snapshots) => snapshots.len(),
                Err(_) => 0,
            };
            let ghost more = runner.exchanges();
            proof {
                assert(more.take(log.len() as int) =~= log);
                assert(more.take(base) =~= log.take(base));
                lemma_cleanup_prefix(all, i as int, log, more, base, suffix@);
                assert(count == count_in(more[base + valid_count(all, i as int)], name@));
                assert forall|k: int|
                    #![trigger all[k]]
                    0 <= k < i + 1 && valid_config_name(all[k].0) implies more[base
                    + valid_count(all, k)].argv == snapper::list_argv(all[k].0) by {
                    if k < i {
                        assert(listed(all, i as int, more, base));
                    }
                }
            }
            let c = Candidate::new(None, cleanup_label_text(name, count, suffix), 0, Risk::Risky);
            found.push(c);
            assert(candidates(found@) =~= candidates(had).push(c@));
        }
        i += 1;
    }
    proof {
        let log = runner.exchanges();
        assert(log[start] == second[start]) by {
            assert(log.take(base)[start] == log[start]);
        }
        assert(log[start + 1] == second[start + 1]) by {
            assert(log.take(base)[start + 1] == log[start + 1]);
        }
        if !snapper::no_unit(second[start + 1].reply) {
            assert(log[start + 2] == second[start + 2]) by {
                assert(log.take(base)[start + 2] == log[start + 2]);
            }
        }
        assert(log.take(start) =~= log.take(base).take(start));
    }
    (found, notes)
}

/// The config name between `for config ` and the following ` (` in a
/// cleanup label.
pub open spec fn config_named(label: Seq<char>) -> Option<Seq<char>> {
    match text::halves(label, "for config "@) {
        Some((_, rest)) => match text::halves(rest, " ("@) {
            Some((name, _)) => Some(name),
            None => None,
        },
        None => None,
    }
}

pub fn extract_config_name(label: &str) -> (r: Option<String>)
    ensures
        text::opt_text(r) == config_named(label@),
{
    match text::cut_at(label, "for config ") {
        Some((_, rest)) => match text::cut_at(rest.as_str(), " (") {
            Some((name, _)) => Some(name),
            None => None,
        },
        None => None,
    }
}

pub open spec fn cleanup_command(name: Seq<char>) -> CmdModel {
    CmdModel {
        argv: seq!["snapper"@, "-c"@, name, "cleanup"@, "number"@],
        sudo: true,
        label: "Run snapper cleanup 'number' for "@ + name,
    }
}

pub open spec fn cleanup_commands(selected: Seq<CandidateModel>, n: int) -> Seq<CmdModel>
    decreases n,
{
    if n <= 0 {
        Seq::empty()
    } else {
        match config_named(selected[n - 1].label) {
            Some(name) => cleanup_commands(selected, n - 1).push(cleanup_command(name)),
            None => cleanup_commands(selected, n - 1),
        }
    }
}

pub fn cleanup_cmd(selected: &Vec<Candidate>) -> (r: Vec<CmdSpec>)
    ensures
        cmds(r@) == cleanup_commands(candidates(selected@), selected@.len() as int),
{
    let mut out: Vec<CmdSpec> = Vec::new();
    let ghost all = candidates(selected@);
    let mut i: usize = 0;
    assert(cmds(out@) =~= Seq::empty());
    while i < selected.len()
        invariant
            i <= selected.len(),
            all == candidates(selected@),
            cmds(out@) == cleanup_commands(all, i as int),
        decreases selected.len() - i,
    {
        assert(all[i as int] == selected@[i as int]@);
        let ghost had = out@;
        if let Some(name) = extract_config_name(selected[i].label.as_str()) {
            let c = CmdSpec {
                argv: text::list5("snapper", "-c", name.as_str(), "cleanup", "number"),
                sudo: true,
                label: concat2("Run snapper cleanup 'number' for ", name.as_str()),
            };
            out.push(c);
            assert(cmds(out@) =~= cmds(had).push(cleanup_command(name@)));
        }
        i += 1;
    }
    out
}

/// A cleanup candidate's label leads back to the config it was made for.
pub proof fn law_cleanup_label_names_its_config(name: Seq<char>, count: nat, suffix: Seq<char>)
    requires
        valid_config_name(name),
    ensures
        config_named(cleanup_label(name, count, suffix)) == Some(name),
{
    reveal_strlit("run snapper cleanup 'number' for config ");
    reveal_strlit("for config ");
    reveal_strlit(" (");
    let head = "run snapper cleanup 'number' for config "@;
    let mark = "for config "@;
    let label = cleanup_label(name, count, suffix);
    let tail = " ("@ + text::decimal(count) + " snapshots)"@ + suffix;
    assert(label =~= head + name + tail);
    assert(text::at(label, mark, 29)) by {
        assert(label.subrange(29, 40) =~= mark);
    }
    assert forall|j: int| 0 <= j < 29 implies !text::at(label, mark, j) by {
        if text::at(label, mark, j) {
            let sub = label.subrange(j, j + 11);
            assert(sub[0] == label[j] && sub[0] == 'f');
            assert(label[j] == head[j]);
        }
    }
    text::lemma_find_is(label, mark, 0, 29);
    let rest = label.skip(40);
    assert(rest =~= name + tail);
    assert(text::at(rest, " ("@, name.len() as int)) by {
        let k = name.len() as int;
        assert(rest.subrange(k, k + 2) =~= " ("@);
    }
    assert forall|j: int| 0 <= j < name.len() implies !text::at(rest, " ("@, j) by {
        if text::at(rest, " ("@, j) {
            let sub = rest.subrange(j, j + 2);
            assert(sub[0] == rest[j] && sub[0] == ' ');
            assert(rest[j] == name[j]);
            assert(config_char(name[j]));
        }
    }
    text::lemma_find_is(rest, " ("@, 0, name.len() as int);
    assert(rest.take(name.len() as int) =~= name);
}

/// Whatever configs there are, a cleanup that is offered leads back to one
/// whose name cannot be mistaken for a flag.
pub proof fn law_offered_cleanups_name_valid_configs(
    configs: Seq<(Seq<char>, Seq<char>)>,
    n: int,
    log: Seq<Exchange>,
    base: int,
    suffix: Seq<char>,
    c: int,
)
    requires
        0 <= n <= configs.len(),
        0 <= c < cleanup_candidates(configs, n, log, base, suffix).len(),
    ensures
        config_named(cleanup_candidates(configs, n, log, base, suffix)[c].label) matches Some(name)
            && valid_config_name(name),
    decreases n,
{
    if n > 0 {
        if c < cleanup_candidates(configs, n - 1, log, base, suffix).len() {
            law_offered_cleanups_name_valid_configs(configs, n - 1, log, base, suffix, c);
        } else {
            let name = configs[n - 1].0;
            let count = count_in(log[base + valid_count(configs, n - 1)], name);
            law_cleanup_label_names_its_config(name, count, suffix);
        }
    }
}

// -------------------------------------------------- snapshots.snapper_manual

pub const NO_BOOTED_KNOWLEDGE_LABEL: &'static str = "manual snapshot deletion";

pub const NO_BOOTED_KNOWLEDGE_REASON: &'static str =
    "cannot identify the booted snapshot — not offering per-snapshot deletion (the cleanup rule above still works)";

pub const LIMINE_INACTIVE_LABEL: &'static str = "limine-snapper-sync";

pub const LIMINE_INACTIVE_REASON: &'static str =
    "installed but inactive — run it manually after deleting snapshots so boot entries stay in sync";

/// The marker that tells a snapshot of a pair from a single one.
pub open spec fn marker(kind: SnapType, pre_number: Option<u64>) -> Seq<char> {
    match kind {
        SnapType::Single => Seq::empty(),
        SnapType::Pre => " [pre]"@,
        SnapType::Post => match pre_number {
            Some(n) => " [post of #"@ + text::decimal(n as nat) + "]"@,
            None => " [post]"@,
        },
    }
}

/// The free text of a label: date and description.
pub open spec fn remarks(date: Option<Seq<char>>, description: Seq<char>) -> Seq<char> {
    (match date {
        Some(d) => " "@ + d,
        None => Seq::empty(),
    }) + (if description.len() > 0 {
        " — "@ + description
    } else {
        Seq::empty()
    })
}

/// A snapshot's label: config, number and marker, then the free text.
pub open spec fn snapshot_label(config: Seq<char>, s: SnapshotModel) -> Seq<char> {
    config + ": #"@ + text::decimal(s.number as nat) + marker(s.snap_type, s.pre_number) + remarks(
        s.date,
        s.description,
    )
}

pub fn manual_label(config: &str, snap: &Snapshot) -> (r: String)
    ensures
        r@ == snapshot_label(config@, snap@),
{
    let digits = decimal_text(snap.number);
    let mut out = concat3(config, ": #", digits.as_str());
    match snap.snap_type {
        SnapType::Pre => out.append(" [pre]"),
        SnapType::Post => match snap.pre_number {
            Some(n) => {
                let pre = decimal_text(n);
                out.append(concat3(" [post of #", pre.as_str(), "]").as_str());
            },
            None => out.append(" [post]"),
        },
        SnapType::Single => {},
    }
    assert(out@ =~= config@ + ": #"@ + text::decimal(snap.number as nat) + marker(
        snap.snap_type,
        snap.pre_number,
    ));
    if let Some(date) = &snap.date {
        out.append(" ");
        out.append(date.as_str());
    }
    if !snap.description.as_str().is_empty() {
        out.append(" — ");
        out.append(snap.description.as_str());
    }
    assert(out@ =~= snapshot_label(config@, snap@));
    out
}

/// The note on a limine that will not follow by itself.
pub open spec fn limine_notes(state: LimineState) -> Seq<(Seq<char>, Seq<char>)> {
    match state {
        LimineState::Present { active } if !active => seq![
            (LIMINE_INACTIVE_LABEL@, LIMINE_INACTIVE_REASON@),
        ],
        _ => Seq::empty(),
    }
}

pub fn manual_limine_skips(state: LimineState) -> (r: Vec<Skip>)
    ensures
        skips(r@) == limine_notes(state),
{
    let mut out: Vec<Skip> = Vec::new();
    match state {
        LimineState::Present { active } if !active => {
            out.push((LIMINE_INACTIVE_LABEL.to_owned(), LIMINE_INACTIVE_REASON.to_owned()));
        },
        _ => {},
    }
    assert(skips(out@) =~= limine_notes(state));
    out
}

/// Whether a snapshot may be offered: never number 0, never a protected one.
pub open spec fn may_offer(s: SnapshotModel, protected: Set<nat>) -> bool {
    s.number != 0 && !protected.contains(s.number as nat)
}

/// The candidates among the first `n` snapshots of a config.
pub open spec fn config_candidates(
    config: Seq<char>,
    list: Seq<SnapshotModel>,
    n: int,
    protected: Set<nat>,
) -> Seq<CandidateModel>
    decreases n,
{
    if n <= 0 {
        Seq::empty()
    } else if may_offer(list[n - 1], protected) {
        config_candidates(config, list, n - 1, protected).push(
            fresh(None, snapshot_label(config, list[n - 1]), 0, Risk::Risky),
        )
    } else {
        config_candidates(config, list, n - 1, protected)
    }
}

/// The candidates of the first `n` configs. A config whose snapshots cannot
/// be listed offers none.
pub open spec fn manual_candidates(
    configs: Seq<(Seq<char>, Seq<char>)>,
    n: int,
    log: Seq<Exchange>,
    base: int,
    protected: Set<nat>,
) -> Seq<CandidateModel>
    decreases n,
{
    if n <= 0 {
        Seq::empty()
    } else {
        let before = manual_candidates(configs, n - 1, log, base, protected);
        let name = configs[n - 1].0;
        if valid_config_name(name) {
            match snapper::snapshots_reply(
                log[base + valid_count(configs, n - 1)].reply,
                name,
            ) {
                Ok(list) => before + config_candidates(name, list, list.len() as int, protected),
                Err(_) => before,
            }
        } else {
            before
        }
    }
}

proof fn lemma_manual_prefix(
    configs: Seq<(Seq<char>, Seq<char>)>,
    n: int,
    log: Seq<Exchange>,
    more: Seq<Exchange>,
    base: int,
    protected: Set<nat>,
)
    requires
        0 <= n,
        0 <= base,
        base + valid_count(configs, n) <= log.len() <= more.len(),
        more.take(log.len() as int) == log,
    ensures
        manual_candidates(configs, n, log, base, protected) == manual_candidates(
            configs,
            n,
            more,
            base,
            protected,
        ),
        listed(configs, n, log, base) ==> listed(configs, n, more, base),
    decreases n,
{
    assert forall|i: int| 0 <= i < log.len() implies log[i] == more[i] by {
        assert(more.take(log.len() as int)[i] == more[i]);
    }
    assert forall|k: int| #![trigger configs[k]] 0 <= k < n && valid_config_name(configs[k].0) implies 0
        <= base + valid_count(configs, k) < log.len() by {
        lemma_valid_count(configs, k, k);
        lemma_valid_count(configs, k + 1, n);
    }
    if n > 0 {
        lemma_valid_count(configs, n - 1, n);
        lemma_manual_prefix(configs, n - 1, log, more, base, protected);
        if valid_config_name(configs[n - 1].0) {
            assert(0 <= base + valid_count(configs, n - 1) < log.len());
        }
    }
}

/// Whether the commands of `log` from `start` on are those of the manual
/// detector. Without knowledge of the booted snapshot nothing but the default
/// subvolume is asked for.
pub open spec fn manual_asked(log: Seq<Exchange>, start: int, booted: Option<nat>) -> bool {
    &&& start < log.len()
    &&& log[start].argv == snapper::get_default_argv()
    &&& match snapper::protected(booted, snapper::default_reply(log[start].reply)) {
        None => log.len() == start + 1,
        Some(_) => {
            let at = start + 1 + snapper::limine_steps(log, start + 1);
            &&& snapper::limine_asked(log, start + 1)
            &&& at < log.len()
            &&& log[at].argv == snapper::list_configs_argv()
            &&& match snapper::configs_reply(log[at].reply) {
                Err(_) => log.len() == at + 1,
                Ok(configs) => {
                    &&& log.len() == at + 1 + valid_count(configs, configs.len() as int)
                    &&& listed(configs, configs.len() as int, log, at + 1)
                },
            }
        },
    }
}

/// What the manual detector makes of the answers.
pub open spec fn manual_found(log: Seq<Exchange>, start: int, booted: Option<nat>) -> (
    Seq<CandidateModel>,
    Seq<(Seq<char>, Seq<char>)>,
) {
    match snapper::protected(booted, snapper::default_reply(log[start].reply)) {
        None => (
            Seq::empty(),
            seq![(NO_BOOTED_KNOWLEDGE_LABEL@, NO_BOOTED_KNOWLEDGE_REASON@)],
        ),
        Some(protected) => {
            let at = start + 1 + snapper::limine_steps(log, start + 1);
            let notes = limine_notes(snapper::limine_state(log, start + 1));
            match snapper::configs_reply(log[at].reply) {
                Err(_) => (Seq::empty(), notes),
                Ok(configs) => (
                    manual_candidates(configs, configs.len() as int, log, at + 1, protected),
                    notes + name_notes(configs, configs.len() as int),
                ),
            }
        },
    }
}

fn holds_number(v: &Vec<u64>, n: u64) -> (r: bool)
    ensures
        r == snapper::numbers(v@).contains(n as nat),
{
    let mut i: usize = 0;
    while i < v.len()
        invariant
            i <= v.len(),
            forall|k: int| 0 <= k < i ==> v@[k] != n,
        decreases v.len() - i,
    {
        if v[i] == n {
            assert(v@[i as int] == n as nat);
            return true;
        }
        i += 1;
    }
    false
}

/// Adds the candidates of one config.
fn offer(config: &str, list: &Vec<Snapshot>, protected: &Vec<u64>, found: &mut Vec<Candidate>)
    ensures
        candidates(final(found)@) == candidates(old(found)@) + config_candidates(
            config@,
            snapper::snapshots(list@),
            list@.len() as int,
            snapper::numbers(protected@),
        ),
{
    let ghost all = snapper::snapshots(list@);
    let ghost set = snapper::numbers(protected@);
    let ghost start = candidates(found@);
    let mut i: usize = 0;
    assert(candidates(found@) =~= start + config_candidates(config@, all, 0, set));
    while i < list.len()
        invariant
            i <= list.len(),
            all == snapper::snapshots(list@),
            set == snapper::numbers(protected@),
            candidates(found@) == start + config_candidates(config@, all, i as int, set),
        decreases list.len() - i,
    {
        assert(all[i as int] == list@[i as int]@);
        let ghost had = found@;
        if list[i].number != 0 && !holds_number(protected, list[i].number) {
            let c = Candidate::new(None, manual_label(config, &list[i]), 0, Risk::Risky);
            found.push(c);
            assert(candidates(found@) =~= candidates(had).push(c@));
            assert(candidates(found@) =~= start + config_candidates(
                config@,
                all,
                i as int,
                set,
            ).push(c@));
        }
        i += 1;
    }
}

pub fn manual_detector<R: CommandRunner>(ctx: &Ctx, host: &Host, runner: &mut R) -> (r: (
    Vec<Candidate>,
    Vec<Skip>,
))
    ensures
        final(runner).prepared() == old(runner).prepared(),
        final(runner).exchanges().len() >= old(runner).exchanges().len(),
        final(runner).exchanges().take(old(runner).exchanges().len() as int) == old(
            runner,
        ).exchanges(),
        manual_asked(
            final(runner).exchanges(),
            old(runner).exchanges().len() as int,
            snapper::booted(ctx, host),
        ),
        (candidates(r.0@), skips(r.1@)) == manual_found(
            final(runner).exchanges(),
            old(runner).exchanges().len() as int,
            snapper::booted(ctx, host),
        ),
{
    let ghost before = runner.exchanges();
    let ghost start = before.len() as int;
    let ghost booted = snapper::booted(ctx, host);
    let mut found: Vec<Candidate> = Vec::new();
    assert(candidates(found@) =~= Seq::empty());
    let protected = match protected_snapshot_numbers(ctx, host, runner) {
        Some(list) => list,
        None => {
            let mut notes: Vec<Skip> = Vec::new();
            notes.push((NO_BOOTED_KNOWLEDGE_LABEL.to_owned(), NO_BOOTED_KNOWLEDGE_REASON.to_owned()));
            assert(skips(notes@) =~= seq![
                (NO_BOOTED_KNOWLEDGE_LABEL@, NO_BOOTED_KNOWLEDGE_REASON@),
            ]);
            assert(runner.exchanges().take(start) =~= before);
            return (found, notes);
        },
    };
    let ghost first = runner.exchanges();
    let ghost set = snapper::numbers(protected@);
    let state = snapper::limine_sync_state(runner);
    let ghost second = runner.exchanges();
    let ghost at = second.len() as int;
    let mut notes = manual_limine_skips(state);
    let ghost notes0 = skips(notes@);
    let configs = list_configs(runner);
    let ghost third = runner.exchanges();
    proof {
        assert(second[start] == first[start]) by {
            assert(second.take(first.len() as int)[start] == second[start]);
        }
        assert(third.take(at) =~= second) by {
            assert(third.take(at) =~= third.drop_last());
        }
        assert(third.take(start) =~= before) by {
            assert(third.take(start) =~= second.take(start));
            assert(second.take(start) =~= second.take(first.len() as int).take(start));
            assert(first.take(start) =~= first.drop_last());
        }
        assert(third[start] == first[start]) by {
            assert(third.take(at)[start] == third[start]);
        }
        assert(third[start + 1] == second[start + 1]) by {
            assert(third.take(at)[start + 1] == third[start + 1]);
        }
        if !snapper::no_unit(second[start + 1].reply) {
            assert(third[start + 2] == second[start + 2]) by {
                assert(third.take(at)[start + 2] == third[start + 2]);
            }
        }
    }
    if let Ok(list) = configs {
        let ghost all = snapper::configs(list@);
        let ghost base = third.len() as int;
        assert(third.take(base) =~= third);
        assert(skips(notes@) =~= notes0 + name_notes(all, 0));
        let mut i: usize = 0;
        while i < list.len()
            invariant
                i <= list.len(),
                0 <= base,
                all == snapper::configs(list@),
                set == snapper::numbers(protected@),
                base == third.len(),
                base <= runner.exchanges().len(),
                runner.exchanges().take(base) == third,
                runner.prepared() == old(runner).prepared(),
                runner.exchanges().len() == base + valid_count(all, i as int),
                listed(all, i as int, runner.exchanges(), base),
                candidates(found@) == manual_candidates(
                    all,
                    i as int,
                    runner.exchanges(),
                    base,
                    set,
                ),
                skips(notes@) == notes0 + name_notes(all, i as int),
            decreases list.len() - i,
        {
            let name = list[i].name.as_str();
            assert(all[i as int] == snapper::config_view(list@[i as int]));
            let ghost noted = notes@;
            let ghost log = runner.exchanges();
            if !is_valid_config_name(name) {
                notes.push(invalid_config_name_skip(name));
                assert(skips(notes@) =~= skips(noted).push(invalid_name_note(name@)));
                assert(skips(notes@) =~= notes0 + name_notes(all, i + 1));
            } else {
                let listing = list_snapshots(runner, name);
                let ghost more = runner.exchanges();
                proof {
                    assert(more.take(log.len() as int) =~= log);
                    assert(more.take(base) =~= log.take(base));
                    lemma_manual_prefix(all, i as int, log, more, base, set);
                    assert forall|k: int|
                        #![trigger all[k]]
                        0 <= k < i + 1 && valid_config_name(all[k].0) implies more[base
                        + valid_count(all, k)].argv == snapper::list_argv(all[k].0) by {
                        if k < i {
                            assert(listed(all, i as int, more, base));
                        }
                    }
                }
                if let Ok(snapshots) = listing {
                    offer(name, &snapshots, &protected, &mut found);
                    assert(snapper::snapshots(snapshots@).len() == snapshots@.len());
                }
            }
            i += 1;
        }
        proof {
            let log = runner.exchanges();
            assert forall|k: int| 0 <= k < base implies log[k] == third[k] by {
                assert(log.take(base)[k] == log[k]);
            }
            assert(log.take(start) =~= log.take(base).take(start));
        }
    }
    (found, notes)
}

// ------------------------------------------------------------ reading labels

#[derive(Debug, Clone, Copy, PartialEq, Eq, Structural)]
pub enum ParsedKind {
    Single,
    Pre,
    Post(Option<u64>),
}

#[derive(Debug, PartialEq, Eq)]
pub struct ParsedLabel {
    pub config: String,
    pub number: u64,
    pub kind: ParsedKind,
}

/// What the machine-read part of a label says.
pub struct LabelModel {
    pub config: Seq<char>,
    pub number: u64,
    pub kind: ParsedKind,
}

impl View for ParsedLabel {
    type V = LabelModel;

    open spec fn view(&self) -> LabelModel {
        LabelModel { config: self.config@, number: self.number, kind: self.kind }
    }
}

impl Clone for ParsedLabel {
    fn clone(&self) -> (r: Self)
        ensures
            r@ == self@,
    {
        ParsedLabel { config: self.config.clone(), number: self.number, kind: self.kind }
    }
}

/// The marker right behind the number, if the text there is well formed.
pub open spec fn kind_after(rest: Seq<char>) -> Option<ParsedKind> {
    if text::starts_with(rest, " [pre]"@) {
        Some(ParsedKind::Pre)
    } else {
        match text::after_prefix(rest, " [post of #"@) {
            Some(post) => match text::halves(post, "]"@) {
                Some((digits, _)) => match text::number(digits, u64::MAX as nat) {
                    Some(n) => Some(ParsedKind::Post(Some(n as u64))),
                    None => None,
                },
                None => None,
            },
            None => if text::starts_with(rest, " [post]"@) {
                Some(ParsedKind::Post(None))
            } else {
                Some(ParsedKind::Single)
            },
        }
    }
}

/// Whether `s` holds a mark at `k`: `: #`, then digits, then a space or the
/// end.
pub open spec fn marked_at(s: Seq<char>, k: int) -> bool {
    let end = text::digits_end(s, k + 3);
    &&& text::at(s, ": #"@, k)
    &&& end > k + 3
    &&& end < s.len() ==> s[end] == ' '
}

/// Where the first mark at or after `from` is.
pub open spec fn first_mark(s: Seq<char>, from: int) -> Option<int>
    decreases s.len() - from,
{
    if from >= s.len() {
        None
    } else if marked_at(s, from) {
        Some(from)
    } else {
        first_mark(s, from + 1)
    }
}

/// A label read back: what stands before the first mark is the config, the
/// digits of the mark are the number, never 0, and behind them comes the
/// marker.
pub open spec fn label_read(label: Seq<char>) -> Option<LabelModel> {
    match first_mark(label, 0) {
        None => None,
        Some(k) => {
            let end = text::digits_end(label, k + 3);
            match text::number(label.subrange(k + 3, end), u64::MAX as nat) {
                None => None,
                Some(n) => if n == 0 {
                    None
                } else {
                    match kind_after(label.skip(end)) {
                        Some(kind) => Some(
                            LabelModel { config: label.take(k), number: n as u64, kind },
                        ),
                        None => None,
                    }
                },
            }
        },
    }
}

fn read_kind(rest: &str) -> (r: Option<ParsedKind>)
    ensures
        r == kind_after(rest@),
{
    if text::has_prefix(rest, " [pre]") {
        return Some(ParsedKind::Pre);
    }
    match text::cut_prefix(rest, " [post of #") {
        Some(post) => match text::cut_at(post.as_str(), "]") {
            Some((digits, _)) => match text::parse_number(digits.as_str(), u64::MAX) {
                Some(n) => Some(ParsedKind::Post(Some(n))),
                None => None,
            },
            None => None,
        },
        None => if text::has_prefix(rest, " [post]") {
            Some(ParsedKind::Post(None))
        } else {
            Some(ParsedKind::Single)
        },
    }
}

pub open spec fn opt_label(o: Option<ParsedLabel>) -> Option<LabelModel> {
    match o {
        Some(p) => Some(p@),
        None => None,
    }
}

/// Reads a label of the manual rule back into its config, number and marker.
/// The first mark counts, so that no date or description can send the reader
/// to another number; a `: #` in a config name is none unless its digits end
/// in a space. Number 0 is never read: it must not reach a command.
pub fn parse_manual_label(label: &str) -> (r: Option<ParsedLabel>)
    ensures
        opt_label(r) == label_read(label@),
{
    let v = chars_of(label);
    let p = chars_of(": #");
    proof {
        reveal_strlit(": #");
    }
    let mut k: usize = 0;
    while k < v.len()
        invariant
            k <= v.len(),
            v@ == label@,
            p@ == ": #"@,
            p@.len() == 3,
            first_mark(label@, 0) == first_mark(label@, k as int),
        decreases v.len() - k,
    {
        if text::is_at(&v, &p, k) {
            let from: usize = k + 3;
            let end = text::find_digits_end(&v, from);
            if end > from && (end == v.len() || v[end] == ' ') {
                assert(first_mark(label@, 0) == Some(k as int));
                let number: u64 = match text::parse_piece(&v, from, end) {
                    Some(number) => number,
                    None => {
                        return None;
                    },
                };
                if number == 0 {
                    return None;
                }
                let after = text::piece(&v, end, v.len());
                assert(after@ =~= label@.skip(end as int));
                return match read_kind(after.as_str()) {
                    Some(kind) => {
                        let config = text::piece(&v, 0, k);
                        assert(config@ =~= label@.take(k as int));
                        Some(ParsedLabel { config, number, kind })
                    },
                    None => None,
                };
            }
        }
        k += 1;
    }
    None
}

pub open spec fn snapshot_kind(s: SnapshotModel) -> ParsedKind {
    match s.snap_type {
        SnapType::Single => ParsedKind::Single,
        SnapType::Pre => ParsedKind::Pre,
        SnapType::Post => ParsedKind::Post(s.pre_number),
    }
}

/// Whether a date reads like the marker of a pair.
pub open spec fn marker_like(date: Seq<char>) -> bool {
    ||| text::starts_with(date, "[pre]"@)
    ||| text::starts_with(date, "[post of #"@)
    ||| text::starts_with(date, "[post]"@)
}

/// Whether a config name holds a mark with more of the name behind it.
pub open spec fn holds_mark(config: Seq<char>) -> bool {
    exists|k: int| #[trigger] marked_at(config, k) && text::digits_end(config, k + 3) < config.len()
}

/// The label of a snapshot leads back to its config, number and place in a
/// pair, whatever its description says, unless the config name holds a mark
/// of its own or the date of a single snapshot reads like a marker.
pub proof fn law_manual_label_reads_back(config: Seq<char>, s: SnapshotModel)
    requires
        s.number > 0,
        !holds_mark(config),
        s.snap_type == SnapType::Single && s.date is Some ==> !marker_like(s.date->Some_0),
    ensures
        label_read(snapshot_label(config, s)) == Some(
            (LabelModel { config, number: s.number, kind: snapshot_kind(s) }),
        ),
{
    reveal_strlit(": #");
    let label = snapshot_label(config, s);
    let digits = text::decimal(s.number as nat);
    let mark = marker(s.snap_type, s.pre_number);
    let free = remarks(s.date, s.description);
    let after = mark + free;
    let k = config.len() as int;
    let end = k + 3 + digits.len();
    text::lemma_number_of_decimal(s.number as nat, u64::MAX as nat);
    text::lemma_decimal(s.number as nat);
    lemma_marker(s.snap_type, s.pre_number);
    lemma_remarks(s.date, s.description);
    assert(label =~= config + ": #"@ + digits + after);
    assert forall|j: int| k + 3 <= j < end implies text::digit(label[j]) by {
        assert(text::digit(digits[j - k - 3]));
    }
    if end < label.len() {
        assert(label[end] == after[0]);
        if mark.len() > 0 {
            assert(after[0] == mark[0]);
        } else {
            assert(after[0] == free[0]);
        }
    }
    text::lemma_digits_end_is(label, k + 3, end);
    assert(label.subrange(k, k + 3) =~= ": #"@);
    assert(marked_at(label, k));
    assert forall|j: int| 0 <= j < k implies !marked_at(label, j) by {
        lemma_no_mark_before(config, digits + after, j);
        assert(label =~= config + ": #"@ + (digits + after));
    }
    lemma_first_mark_is(label, 0, k);
    assert(label.take(k) =~= config);
    assert(label.subrange(k + 3, end) =~= digits);
    assert(label.skip(end) =~= after);
    lemma_kind_after(s, after);
}

proof fn lemma_first_mark_is(s: Seq<char>, from: int, k: int)
    requires
        0 <= from <= k < s.len(),
        marked_at(s, k),
        forall|j: int| from <= j < k ==> !marked_at(s, j),
    ensures
        first_mark(s, from) == Some(k),
    decreases k - from,
{
    if from < k {
        lemma_first_mark_is(s, from + 1, k);
    }
}

/// A config name without a mark of its own gets none from what follows it.
proof fn lemma_no_mark_before(config: Seq<char>, rest: Seq<char>, j: int)
    requires
        !holds_mark(config),
        0 <= j < config.len(),
    ensures
        !marked_at(config + ": #"@ + rest, j),
{
    reveal_strlit(": #");
    let label = config + ": #"@ + rest;
    let k = config.len() as int;
    if marked_at(label, j) {
        let three = label.subrange(j, j + 3);
        assert(three[0] == label[j] && three[1] == label[j + 1] && three[2] == label[j + 2]);
        assert(label[k] == ':' && label[k + 1] == ' ');
        assert(j + 3 <= k);
        let own = text::digits_end(config, j + 3);
        text::lemma_digits_end(config, j + 3);
        assert forall|i: int| j + 3 <= i < own implies text::digit(label[i]) by {
            assert(text::digit(config[i]));
        }
        assert(!text::digit(label[own])) by {
            if own < k {
                assert(label[own] == config[own]);
            }
        }
        text::lemma_digits_end_is(label, j + 3, own);
        assert(own < k);
        assert(config.subrange(j, j + 3) =~= ": #"@);
        assert(marked_at(config, j));
    }
}

/// A marker starts with a space.
proof fn lemma_marker(kind: SnapType, pre_number: Option<u64>)
    ensures
        marker(kind, pre_number).len() > 0 ==> marker(kind, pre_number)[0] == ' ',
{
    reveal_strlit(" [pre]");
    reveal_strlit(" [post]");
    reveal_strlit(" [post of #");
}

/// The free text starts with a space.
proof fn lemma_remarks(date: Option<Seq<char>>, description: Seq<char>)
    ensures
        remarks(date, description).len() > 0 ==> remarks(date, description)[0] == ' ',
{
    reveal_strlit(" ");
    reveal_strlit(" — ");
}

/// Free text that opens with a space and `p`, a bracketed marker, has it from
/// the date.
proof fn lemma_date_opens(date: Option<Seq<char>>, description: Seq<char>, p: Seq<char>)
    requires
        text::starts_with(remarks(date, description), " "@ + p),
        p.len() > 0,
        p[0] == '[',
        p.last() != ' ',
        forall|i: int| 0 <= i < p.len() ==> p[i] != '—',
    ensures
        date is Some,
        text::starts_with(date->Some_0, p),
{
    reveal_strlit(" ");
    reveal_strlit(" — ");
    let free = remarks(date, description);
    let n = p.len() as int;
    assert forall|i: int| 0 <= i < n implies free[i + 1] == p[i] by {
        assert(free.subrange(0, n + 1)[i + 1] == free[i + 1]);
        assert((" "@ + p)[i + 1] == p[i]);
    }
    assert(free[1] == '[');
    if date is Some {
        let d = date->Some_0;
        if d.len() < n {
            let k = d.len() as int;
            assert(free[k + 1] == p[k]);
            assert(free[k + 1] == ' ');
            assert(free[k + 2] == '—');
            assert(k < n - 1);
            assert(free[k + 2] == p[k + 1]);
        } else {
            assert forall|i: int| 0 <= i < n implies d[i] == p[i] by {
                assert(free[i + 1] == d[i]);
            }
            assert(d.subrange(0, n) =~= p);
        }
    }
}

/// The marker that a label's free text follows is read for what it is.
proof fn lemma_kind_after(s: SnapshotModel, after: Seq<char>)
    requires
        after == marker(s.snap_type, s.pre_number) + remarks(s.date, s.description),
        s.snap_type == SnapType::Single && s.date is Some ==> !marker_like(s.date->Some_0),
    ensures
        kind_after(after) == Some(snapshot_kind(s)),
{
    reveal_strlit(" [pre]");
    reveal_strlit(" [post]");
    reveal_strlit(" [post of #");
    reveal_strlit("]");
    reveal_strlit(" ");
    reveal_strlit(" — ");
    let mark = marker(s.snap_type, s.pre_number);
    let free = remarks(s.date, s.description);
    match s.snap_type {
        SnapType::Pre => {
            assert(after.subrange(0, 6) =~= " [pre]"@);
        },
        SnapType::Post => match s.pre_number {
            Some(n) => {
                let digits = text::decimal(n as nat);
                text::lemma_decimal(n as nat);
                text::lemma_number_of_decimal(n as nat, u64::MAX as nat);
                assert(after.subrange(0, 11) =~= " [post of #"@);
                assert(!text::starts_with(after, " [pre]"@)) by {
                    if text::starts_with(after, " [pre]"@) {
                        assert(after.subrange(0, 6)[3] == after[3]);
                        assert(" [pre]"@[3] == 'r');
                        assert(after[3] == 'o');
                    }
                }
                let post = after.skip(11);
                assert(post =~= digits + "]"@ + free);
                let d = digits.len() as int;
                assert(text::at(post, "]"@, d)) by {
                    assert(post.subrange(d, d + 1) =~= "]"@);
                }
                assert forall|j: int| 0 <= j < d implies !text::at(post, "]"@, j) by {
                    if text::at(post, "]"@, j) {
                        assert(post.subrange(j, j + 1)[0] == post[j]);
                        assert(text::digit(digits[j]));
                        assert(post[j] == digits[j]);
                    }
                }
                text::lemma_find_is(post, "]"@, 0, d);
                assert(post.take(d) =~= digits);
            },
            None => {
                assert(after.subrange(0, 7) =~= " [post]"@);
                assert(after[3] == 'o' && after[6] == ']');
                assert(!text::starts_with(after, " [pre]"@)) by {
                    if text::starts_with(after, " [pre]"@) {
                        assert(after.subrange(0, 6)[3] == after[3]);
                        assert(" [pre]"@[3] == 'r');
                    }
                }
                assert(!text::starts_with(after, " [post of #"@)) by {
                    if text::starts_with(after, " [post of #"@) {
                        assert(after.subrange(0, 11)[6] == after[6]);
                        assert(" [post of #"@[6] == ' ');
                    }
                }
            },
        },
        SnapType::Single => {
            assert(after =~= free);
            reveal_strlit("[pre]");
            reveal_strlit("[post of #");
            reveal_strlit("[post]");
            assert(" "@ + "[pre]"@ =~= " [pre]"@);
            assert(" "@ + "[post of #"@ =~= " [post of #"@);
            assert(" "@ + "[post]"@ =~= " [post]"@);
            if text::starts_with(free, " [pre]"@) {
                lemma_date_opens(s.date, s.description, "[pre]"@);
            }
            if text::starts_with(free, " [post of #"@) {
                lemma_date_opens(s.date, s.description, "[post of #"@);
            }
            if text::starts_with(free, " [post]"@) {
                lemma_date_opens(s.date, s.description, "[post]"@);
            }
        },
    }
}

// ----------------------------------------------------------- delete commands

/// The label without its free text, to name a snapshot in a note.
pub open spec fn short_label(config: Seq<char>, p: LabelModel) -> Seq<char> {
    config + ": #"@ + text::decimal(p.number as nat) + (match p.kind {
        ParsedKind::Pre => " [pre]"@,
        ParsedKind::Post(Some(n)) => " [post of #"@ + text::decimal(n as nat) + "]"@,
        ParsedKind::Post(None) => " [post]"@,
        ParsedKind::Single => Seq::empty(),
    })
}

pub fn minimal_label(config: &str, parsed: &ParsedLabel) -> (r: String)
    ensures
        r@ == short_label(config@, parsed@),
{
    let digits = decimal_text(parsed.number);
    let mut out = concat3(config, ": #", digits.as_str());
    match parsed.kind {
        ParsedKind::Pre => out.append(" [pre]"),
        ParsedKind::Post(Some(n)) => {
            let pre = decimal_text(n);
            out.append(concat3(" [post of #", pre.as_str(), "]").as_str());
        },
        ParsedKind::Post(None) => out.append(" [post]"),
        ParsedKind::Single => {},
    }
    assert(out@ =~= short_label(config@, parsed@));
    out
}

pub open spec fn labels(v: Seq<ParsedLabel>) -> Seq<LabelModel> {
    Seq::new(v.len(), |i: int| v[i]@)
}

/// The labels that can be read among the first `n` candidates.
pub open spec fn readable(selected: Seq<CandidateModel>, n: int) -> Seq<LabelModel>
    decreases n,
{
    if n <= 0 {
        Seq::empty()
    } else {
        match label_read(selected[n - 1].label) {
            Some(p) => readable(selected, n - 1).push(p),
            None => readable(selected, n - 1),
        }
    }
}

/// The notes on those that cannot.
pub open spec fn unreadable(selected: Seq<CandidateModel>, n: int) -> Seq<(Seq<char>, Seq<char>)>
    decreases n,
{
    if n <= 0 {
        Seq::empty()
    } else {
        match label_read(selected[n - 1].label) {
            Some(_) => unreadable(selected, n - 1),
            None => unreadable(selected, n - 1).push(
                (selected[n - 1].label, "could not be safely interpreted — not deleted"@),
            ),
        }
    }
}

/// Those of the first `n` labels that belong to `config`.
pub open spec fn members(all: Seq<LabelModel>, config: Seq<char>, n: int) -> Seq<LabelModel>
    decreases n,
{
    if n <= 0 {
        Seq::empty()
    } else if all[n - 1].config == config {
        members(all, config, n - 1).push(all[n - 1])
    } else {
        members(all, config, n - 1)
    }
}

/// Where `x` goes among the sorted `names[..end]`.
pub open spec fn name_slot(names: Seq<Seq<char>>, x: Seq<char>, end: int) -> int
    decreases end,
{
    if end <= 0 || !order::before(x, names[end - 1]) {
        end
    } else {
        name_slot(names, x, end - 1)
    }
}

/// The names with `x` among them, in order and each once.
pub open spec fn with_name(names: Seq<Seq<char>>, x: Seq<char>) -> Seq<Seq<char>> {
    if names.contains(x) {
        names
    } else {
        names.insert(name_slot(names, x, names.len() as int), x)
    }
}

/// The configs of the first `n` labels, in order and each once.
pub open spec fn config_names(all: Seq<LabelModel>, n: int) -> Seq<Seq<char>>
    decreases n,
{
    if n <= 0 {
        Seq::empty()
    } else {
        with_name(config_names(all, n - 1), all[n - 1].config)
    }
}

pub open spec fn number_slot(list: Seq<u64>, x: u64, end: int) -> int
    decreases end,
{
    if end <= 0 || x >= list[end - 1] {
        end
    } else {
        number_slot(list, x, end - 1)
    }
}

/// The numbers of the first `n` labels, in order and each once.
pub open spec fn sorted_numbers(list: Seq<LabelModel>, n: int) -> Seq<u64>
    decreases n,
{
    if n <= 0 {
        Seq::empty()
    } else {
        let before = sorted_numbers(list, n - 1);
        let x = list[n - 1].number;
        if before.contains(x) {
            before
        } else {
            before.insert(number_slot(before, x, before.len() as int), x)
        }
    }
}

/// Whether the other half of a pair is selected too. A single snapshot has
/// no other half; a post snapshot whose pre is unknown never has its.
pub open spec fn paired(p: LabelModel, list: Seq<LabelModel>) -> bool {
    match p.kind {
        ParsedKind::Single => true,
        ParsedKind::Pre => exists|i: int|
            0 <= i < list.len() && (#[trigger] list[i]).kind == ParsedKind::Post(Some(p.number)),
        ParsedKind::Post(Some(n)) => exists|i: int|
            0 <= i < list.len() && (#[trigger] list[i]).number == n,
        ParsedKind::Post(None) => false,
    }
}

/// The note on half a pair.
pub open spec fn violation(config: Seq<char>, p: LabelModel) -> (Seq<char>, Seq<char>) {
    (
        short_label(config, p),
        (if p.kind == ParsedKind::Pre {
            "selected without its paired post snapshot — deselect it or select the pair; nothing was deleted for config "@
        } else {
            "selected without its paired pre snapshot — deselect it or select the pair; nothing was deleted for config "@
        }) + config,
    )
}

/// The halves of pairs among the first `n` labels of a config.
pub open spec fn violations(config: Seq<char>, list: Seq<LabelModel>, n: int) -> Seq<
    (Seq<char>, Seq<char>),
>
    decreases n,
{
    if n <= 0 {
        Seq::empty()
    } else if paired(list[n - 1], list) {
        violations(config, list, n - 1)
    } else {
        violations(config, list, n - 1).push(violation(config, list[n - 1]))
    }
}

pub open spec fn decimals(list: Seq<u64>) -> Seq<Seq<char>> {
    Seq::new(list.len(), |i: int| text::decimal(list[i] as nat))
}

/// The command that deletes these snapshots of `config`.
pub open spec fn delete_command(config: Seq<char>, list: Seq<u64>) -> CmdModel {
    CmdModel {
        argv: seq!["snapper"@, "-c"@, config, "delete"@] + decimals(list),
        sudo: true,
        label: "Delete "@ + text::decimal(list.len()) + " snapshot(s) from config "@ + config,
    }
}

/// All the labels of `config`.
pub open spec fn of_config(all: Seq<LabelModel>, config: Seq<char>) -> Seq<LabelModel> {
    members(all, config, all.len() as int)
}

/// The notes that keep anything of `config` from being deleted.
pub open spec fn refusals(all: Seq<LabelModel>, config: Seq<char>) -> Seq<(Seq<char>, Seq<char>)> {
    violations(config, of_config(all, config), of_config(all, config).len() as int)
}

/// The numbers of `config` to delete.
pub open spec fn doomed(all: Seq<LabelModel>, config: Seq<char>) -> Seq<u64> {
    sorted_numbers(of_config(all, config), of_config(all, config).len() as int)
}

/// The commands for the first `n` configs: one for each whose pairs are all
/// complete.
pub open spec fn delete_commands(all: Seq<LabelModel>, names: Seq<Seq<char>>, n: int) -> Seq<
    CmdModel,
>
    decreases n,
{
    if n <= 0 {
        Seq::empty()
    } else if refusals(all, names[n - 1]).len() > 0 {
        delete_commands(all, names, n - 1)
    } else {
        delete_commands(all, names, n - 1).push(
            delete_command(names[n - 1], doomed(all, names[n - 1])),
        )
    }
}

pub open spec fn delete_refusals(all: Seq<LabelModel>, names: Seq<Seq<char>>, n: int) -> Seq<
    (Seq<char>, Seq<char>),
>
    decreases n,
{
    if n <= 0 {
        Seq::empty()
    } else {
        delete_refusals(all, names, n - 1) + refusals(all, names[n - 1])
    }
}

/// The labels that can be read in the whole selection.
pub open spec fn all_readable(selected: Seq<CandidateModel>) -> Seq<LabelModel> {
    readable(selected, selected.len() as int)
}

/// The configs of the whole selection.
pub open spec fn all_configs(selected: Seq<CandidateModel>) -> Seq<Seq<char>> {
    config_names(all_readable(selected), all_readable(selected).len() as int)
}

/// What the manual rule runs for a selection.
pub open spec fn manual_commands(selected: Seq<CandidateModel>) -> Seq<CmdModel> {
    delete_commands(
        all_readable(selected),
        all_configs(selected),
        all_configs(selected).len() as int,
    )
}

/// What it refuses: labels it cannot read, and configs with half a pair.
pub open spec fn manual_refusals(selected: Seq<CandidateModel>) -> Seq<(Seq<char>, Seq<char>)> {
    unreadable(selected, selected.len() as int) + delete_refusals(
        all_readable(selected),
        all_configs(selected),
        all_configs(selected).len() as int,
    )
}

fn add_name(names: &mut Vec<String>, x: &str)
    ensures
        text::texts(final(names)@) == with_name(text::texts(old(names)@), x@),
{
    if text::holds(names, x) {
        return;
    }
    let ghost before = text::texts(names@);
    let mut at: usize = names.len();
    while at > 0 && order::is_before(x, names[at - 1].as_str())
        invariant
            at <= names.len(),
            before == text::texts(names@),
            name_slot(before, x@, before.len() as int) == name_slot(before, x@, at as int),
        decreases at,
    {
        at -= 1;
    }
    let ghost was = names@;
    names.insert(at, x.to_owned());
    assert(text::texts(names@) =~= before.insert(at as int, x@));
}

fn add_number(list: &mut Vec<u64>, x: u64)
    ensures
        final(list)@ == (if old(list)@.contains(x) {
            old(list)@
        } else {
            old(list)@.insert(number_slot(old(list)@, x, old(list)@.len() as int), x)
        }),
{
    let mut i: usize = 0;
    while i < list.len()
        invariant
            i <= list.len(),
            list@ == old(list)@,
            forall|k: int| 0 <= k < i ==> list@[k] != x,
        decreases list.len() - i,
    {
        if list[i] == x {
            assert(list@[i as int] == x);
            return;
        }
        i += 1;
    }
    let mut at: usize = list.len();
    while at > 0 && x < list[at - 1]
        invariant
            at <= list.len(),
            list@ == old(list)@,
            number_slot(list@, x, list@.len() as int) == number_slot(list@, x, at as int),
        decreases at,
    {
        at -= 1;
    }
    list.insert(at, x);
}

fn members_of(all: &Vec<ParsedLabel>, config: &str) -> (r: Vec<ParsedLabel>)
    ensures
        labels(r@) == of_config(labels(all@), config@),
{
    let ghost models = labels(all@);
    let mut out: Vec<ParsedLabel> = Vec::new();
    let mut i: usize = 0;
    assert(labels(out@) =~= Seq::empty());
    while i < all.len()
        invariant
            i <= all.len(),
            models == labels(all@),
            labels(out@) == members(models, config@, i as int),
        decreases all.len() - i,
    {
        assert(models[i as int] == all@[i as int]@);
        let ghost had = out@;
        if text::same(all[i].config.as_str(), config) {
            let p = all[i].clone();
            out.push(p);
            assert(labels(out@) =~= labels(had).push(p@));
        }
        i += 1;
    }
    out
}

fn is_paired(p: &ParsedLabel, list: &Vec<ParsedLabel>) -> (r: bool)
    ensures
        r == paired(p@, labels(list@)),
{
    let ghost models = labels(list@);
    match p.kind {
        ParsedKind::Single => {
            return true;
        },
        ParsedKind::Post(None) => {
            return false;
        },
        _ => {},
    }
    let mut i: usize = 0;
    while i < list.len()
        invariant
            i <= list.len(),
            models == labels(list@),
            p.kind == ParsedKind::Pre || p.kind is Post && p.kind->Post_0 is Some,
            p.kind == ParsedKind::Pre ==> forall|k: int|
                0 <= k < i ==> (#[trigger] models[k]).kind != ParsedKind::Post(Some(p.number)),
            p.kind is Post ==> forall|k: int|
                0 <= k < i ==> (#[trigger] models[k]).number != p.kind->Post_0->Some_0,
        decreases list.len() - i,
    {
        assert(models[i as int] == list@[i as int]@);
        let hit = match p.kind {
            ParsedKind::Pre => match list[i].kind {
                ParsedKind::Post(Some(n)) => n == p.number,
                _ => false,
            },
            ParsedKind::Post(Some(n)) => list[i].number == n,
            _ => false,
        };
        if hit {
            return true;
        }
        i += 1;
    }
    false
}

fn violations_of(config: &str, list: &Vec<ParsedLabel>) -> (r: Vec<Skip>)
    ensures
        skips(r@) == violations(config@, labels(list@), list@.len() as int),
{
    let ghost models = labels(list@);
    let mut out: Vec<Skip> = Vec::new();
    let mut i: usize = 0;
    assert(skips(out@) =~= Seq::empty());
    while i < list.len()
        invariant
            i <= list.len(),
            models == labels(list@),
            skips(out@) == violations(config@, models, i as int),
        decreases list.len() - i,
    {
        assert(models[i as int] == list@[i as int]@);
        let ghost had = out@;
        if !is_paired(&list[i], list) {
            let reason = if list[i].kind == ParsedKind::Pre {
                concat2(
                    "selected without its paired post snapshot — deselect it or select the pair; nothing was deleted for config ",
                    config,
                )
            } else {
                concat2(
                    "selected without its paired pre snapshot — deselect it or select the pair; nothing was deleted for config ",
                    config,
                )
            };
            out.push((minimal_label(config, &list[i]), reason));
            assert(skips(out@) =~= skips(had).push(violation(config@, models[i as int])));
        }
        i += 1;
    }
    out
}

fn delete_spec(config: &str, list: &Vec<ParsedLabel>) -> (r: CmdSpec)
    ensures
        r@ == delete_command(config@, sorted_numbers(labels(list@), list@.len() as int)),
{
    let ghost models = labels(list@);
    let mut numbers: Vec<u64> = Vec::new();
    let mut i: usize = 0;
    while i < list.len()
        invariant
            i <= list.len(),
            models == labels(list@),
            numbers@ == sorted_numbers(models, i as int),
        decreases list.len() - i,
    {
        assert(models[i as int] == list@[i as int]@);
        add_number(&mut numbers, list[i].number);
        i += 1;
    }
    let mut argv = text::list4("snapper", "-c", config, "delete");
    let ghost head = text::texts(argv@);
    let mut j: usize = 0;
    assert(text::texts(argv@) =~= head + decimals(numbers@).take(0));
    while j < numbers.len()
        invariant
            j <= numbers.len(),
            text::texts(argv@) == head + decimals(numbers@).take(j as int),
        decreases numbers.len() - j,
    {
        let ghost had = argv@;
        argv.push(decimal_text(numbers[j]));
        assert(text::texts(argv@) =~= text::texts(had).push(text::decimal(numbers@[j as int] as nat)));
        assert(decimals(numbers@).take(j + 1) =~= decimals(numbers@).take(j as int).push(
            decimals(numbers@)[j as int],
        ));
        j += 1;
        assert(text::texts(argv@) =~= head + decimals(numbers@).take(j as int));
    }
    assert(decimals(numbers@).take(numbers@.len() as int) =~= decimals(numbers@));
    let count = decimal_text(numbers.len() as u64);
    CmdSpec {
        argv,
        sudo: true,
        label: concat4("Delete ", count.as_str(), " snapshot(s) from config ", config),
    }
}

/// Builds the delete commands for a selection, one per config, and the notes
/// on what is refused.
pub fn manual_cmd(selected: &Vec<Candidate>) -> (r: (Vec<CmdSpec>, Vec<Skip>))
    ensures
        cmds(r.0@) == manual_commands(candidates(selected@)),
        skips(r.1@) == manual_refusals(candidates(selected@)),
{
    let ghost sel = candidates(selected@);
    let mut notes: Vec<Skip> = Vec::new();
    let mut parsed: Vec<ParsedLabel> = Vec::new();
    let mut i: usize = 0;
    assert(labels(parsed@) =~= Seq::empty());
    assert(skips(notes@) =~= Seq::empty());
    while i < selected.len()
        invariant
            i <= selected.len(),
            sel == candidates(selected@),
            labels(parsed@) == readable(sel, i as int),
            skips(notes@) == unreadable(sel, i as int),
        decreases selected.len() - i,
    {
        assert(sel[i as int] == selected@[i as int]@);
        let ghost had = parsed@;
        let ghost noted = notes@;
        match parse_manual_label(selected[i].label.as_str()) {
            Some(p) => {
                parsed.push(p);
                assert(labels(parsed@) =~= labels(had).push(p@));
            },
            None => {
                notes.push(
                    (
                        selected[i].label.clone(),
                        "could not be safely interpreted — not deleted".to_owned(),
                    ),
                );
                assert(skips(notes@) =~= skips(noted).push(
                    (sel[i as int].label, "could not be safely interpreted — not deleted"@),
                ));
            },
        }
        i += 1;
    }
    let ghost all = labels(parsed@);
    let mut names: Vec<String> = Vec::new();
    let mut j: usize = 0;
    assert(text::texts(names@) =~= Seq::empty());
    while j < parsed.len()
        invariant
            j <= parsed.len(),
            all == labels(parsed@),
            text::texts(names@) == config_names(all, j as int),
        decreases parsed.len() - j,
    {
        assert(all[j as int] == parsed@[j as int]@);
        add_name(&mut names, parsed[j].config.as_str());
        j += 1;
    }
    let ghost order = text::texts(names@);
    let ghost unread = skips(notes@);
    let mut specs: Vec<CmdSpec> = Vec::new();
    let mut k: usize = 0;
    assert(cmds(specs@) =~= Seq::empty());
    assert(skips(notes@) =~= unread + delete_refusals(all, order, 0));
    while k < names.len()
        invariant
            k <= names.len(),
            all == labels(parsed@),
            order == text::texts(names@),
            cmds(specs@) == delete_commands(all, order, k as int),
            skips(notes@) == unread + delete_refusals(all, order, k as int),
        decreases names.len() - k,
    {
        let config = names[k].as_str();
        assert(order[k as int] == config@);
        let list = members_of(&parsed, config);
        assert(labels(list@).len() == list@.len());
        let mut broken = violations_of(config, &list);
        let ghost refused = skips(broken@);
        assert(refused == refusals(all, config@));
        let ghost noted = notes@;
        let ghost built = specs@;
        if broken.len() > 0 {
            assert(refused.len() > 0);
            let ghost extra = broken@;
            notes.append(&mut broken);
            assert(skips(notes@) =~= skips(noted) + refused);
        } else {
            assert(refused.len() == 0);
            let c = delete_spec(config, &list);
            specs.push(c);
            assert(cmds(specs@) =~= cmds(built).push(c@));
            assert(skips(notes@) =~= skips(noted) + refused);
        }
        assert(skips(notes@) =~= unread + delete_refusals(all, order, k + 1));
        k += 1;
    }
    assert(order.len() == names.len());
    (specs, notes)
}

proof fn lemma_readable_positive(selected: Seq<CandidateModel>, n: int)
    requires
        0 <= n,
    ensures
        forall|i: int| 0 <= i < readable(selected, n).len() ==> (#[trigger] readable(
            selected,
            n,
        )[i]).number > 0,
    decreases n,
{
    if n > 0 {
        lemma_readable_positive(selected, n - 1);
    }
}

proof fn lemma_members(all: Seq<LabelModel>, config: Seq<char>, n: int)
    requires
        0 <= n <= all.len(),
    ensures
        forall|i: int|
            0 <= i < members(all, config, n).len() ==> all.contains(
                #[trigger] members(all, config, n)[i],
            ) && members(all, config, n)[i].config == config,
        forall|i: int|
            0 <= i < n && all[i].config == config ==> members(all, config, n).contains(
                #[trigger] all[i],
            ),
    decreases n,
{
    if n > 0 {
        lemma_members(all, config, n - 1);
        let before = members(all, config, n - 1);
        let now = members(all, config, n);
        if all[n - 1].config == config {
            assert(now == before.push(all[n - 1]));
            assert forall|i: int| 0 <= i < now.len() implies all.contains(#[trigger] now[i])
                && now[i].config == config by {
                if i < before.len() {
                    assert(now[i] == before[i]);
                } else {
                    assert(all[n - 1] == now[i]);
                }
            }
            assert forall|i: int| 0 <= i < n && all[i].config == config implies now.contains(
                #[trigger] all[i],
            ) by {
                if i < n - 1 {
                    assert(before.contains(all[i]));
                    let k = choose|k: int| 0 <= k < before.len() && before[k] == all[i];
                    assert(now[k] == all[i]);
                } else {
                    assert(now[before.len() as int] == all[i]);
                }
            }
        }
    }
}

/// A number put in its place keeps a rising list rising.
proof fn lemma_rising_insert(before: Seq<u64>, at: int, x: u64)
    requires
        0 <= at <= before.len(),
        forall|i: int, j: int| 0 <= i < j < before.len() ==> before[i] < before[j],
        forall|k: int| 0 <= k < at ==> before[k] < x,
        forall|k: int| at <= k < before.len() ==> x < before[k],
    ensures
        forall|i: int, j: int|
            0 <= i < j < before.insert(at, x).len() ==> before.insert(at, x)[i]
                < before.insert(at, x)[j],
{
}

/// It holds what it held, and the number.
proof fn lemma_insert_holds(before: Seq<u64>, at: int, x: u64, y: u64)
    requires
        0 <= at <= before.len(),
    ensures
        before.insert(at, x).contains(y) <==> before.contains(y) || y == x,
{
    let now = before.insert(at, x);
    if before.contains(y) {
        let k = choose|k: int| 0 <= k < before.len() && before[k] == y;
        assert(now[if k < at {
            k
        } else {
            k + 1
        }] == y);
    }
    assert(now[at] == x);
    if now.contains(y) && y != x {
        let k = choose|k: int| 0 <= k < now.len() && now[k] == y;
        assert(before[if k < at {
            k
        } else {
            k - 1
        }] == y);
    }
}

proof fn lemma_sorted_numbers(list: Seq<LabelModel>, n: int)
    requires
        0 <= n <= list.len(),
    ensures
        forall|i: int, j: int|
            0 <= i < j < sorted_numbers(list, n).len() ==> sorted_numbers(list, n)[i]
                < sorted_numbers(list, n)[j],
        forall|i: int|
            0 <= i < n ==> sorted_numbers(list, n).contains((#[trigger] list[i]).number),
        forall|i: int|
            0 <= i < sorted_numbers(list, n).len() ==> exists|k: int|
                0 <= k < n && (#[trigger] list[k]).number == #[trigger] sorted_numbers(
                    list,
                    n,
                )[i],
    decreases n,
{
    if n > 0 {
        lemma_sorted_numbers(list, n - 1);
        let before = sorted_numbers(list, n - 1);
        let x = list[n - 1].number;
        let now = sorted_numbers(list, n);
        if !before.contains(x) {
            let at = number_slot(before, x, before.len() as int);
            lemma_number_slot(before, x, before.len() as int);
            assert(now == before.insert(at, x));
            assert forall|k: int| 0 <= k < at implies before[k] < x by {
                assert(before[at - 1] != x);
                assert(k < at - 1 ==> before[k] < before[at - 1]);
            }
            lemma_rising_insert(before, at, x);
            assert forall|i: int| 0 <= i < n implies now.contains((#[trigger] list[i]).number) by {
                lemma_insert_holds(before, at, x, list[i].number);
            }
            assert forall|i: int| 0 <= i < now.len() implies exists|k: int|
                0 <= k < n && (#[trigger] list[k]).number == #[trigger] now[i] by {
                lemma_insert_holds(before, at, x, now[i]);
                if now[i] == x {
                    assert(list[n - 1].number == now[i]);
                } else {
                    let a = choose|a: int| 0 <= a < before.len() && before[a] == now[i];
                    let k = choose|k: int|
                        0 <= k < n - 1 && (#[trigger] list[k]).number == before[a];
                    assert(list[k].number == now[i]);
                }
            }
        } else {
            assert(now == before);
        }
    }
}

proof fn lemma_number_slot(list: Seq<u64>, x: u64, end: int)
    requires
        0 <= end <= list.len(),
    ensures
        0 <= number_slot(list, x, end) <= end,
        number_slot(list, x, end) > 0 ==> x >= list[number_slot(list, x, end) - 1],
        forall|k: int| number_slot(list, x, end) <= k < end ==> x < list[k],
    decreases end,
{
    if end > 0 && x < list[end - 1] {
        lemma_number_slot(list, x, end - 1);
    }
}

proof fn lemma_delete_commands(all: Seq<LabelModel>, names: Seq<Seq<char>>, n: int, c: int)
    requires
        0 <= n <= names.len(),
        0 <= c < delete_commands(all, names, n).len(),
    ensures
        exists|k: int|
            0 <= k < n && refusals(all, #[trigger] names[k]).len() == 0 && delete_commands(
                all,
                names,
                n,
            )[c] == delete_command(names[k], doomed(all, names[k])),
    decreases n,
{
    if n > 0 {
        let before = delete_commands(all, names, n - 1);
        if c < before.len() {
            lemma_delete_commands(all, names, n - 1, c);
            let k = choose|k: int|
                0 <= k < n - 1 && refusals(all, #[trigger] names[k]).len() == 0 && before[c]
                    == delete_command(names[k], doomed(all, names[k]));
            assert(delete_commands(all, names, n)[c] == before[c]);
            assert(refusals(all, names[k]).len() == 0);
        } else {
            assert(refusals(all, names[n - 1]).len() == 0);
        }
    }
}

proof fn lemma_no_violation(config: Seq<char>, list: Seq<LabelModel>, n: int)
    requires
        0 <= n <= list.len(),
        violations(config, list, n).len() == 0,
    ensures
        forall|i: int| 0 <= i < n ==> paired(#[trigger] list[i], list),
    decreases n,
{
    if n > 0 {
        lemma_no_violation(config, list, n - 1);
    }
}

/// Every command of the manual rule deletes snapshots of one config: numbers
/// that were selected for it, in order, each once, and never 0. Every pair
/// that the selection of that config touches is selected whole.
pub proof fn law_manual_deletes_only_what_is_selected(selected: Seq<CandidateModel>, c: int)
    requires
        0 <= c < manual_commands(selected).len(),
    ensures
        exists|config: Seq<char>, list: Seq<u64>|
            {
                &&& manual_commands(selected)[c] == #[trigger] delete_command(config, list)
                &&& forall|i: int, j: int| 0 <= i < j < list.len() ==> list[i] < list[j]
                &&& forall|i: int| 0 <= i < list.len() ==> #[trigger] list[i] > 0
                &&& forall|i: int|
                    0 <= i < list.len() ==> exists|k: int|
                        0 <= k < of_config(all_readable(selected), config).len() && of_config(
                            all_readable(selected),
                            config,
                        )[k].number == #[trigger] list[i]
                &&& forall|i: int|
                    0 <= i < of_config(all_readable(selected), config).len() ==> list.contains(
                        (#[trigger] of_config(all_readable(selected), config)[i]).number,
                    ) && paired(
                        of_config(all_readable(selected), config)[i],
                        of_config(all_readable(selected), config),
                    )
            },
{
    let all = all_readable(selected);
    let names = all_configs(selected);
    lemma_delete_commands(all, names, names.len() as int, c);
    let k = choose|k: int|
        0 <= k < names.len() && refusals(all, #[trigger] names[k]).len() == 0 && manual_commands(
            selected,
        )[c] == delete_command(names[k], doomed(all, names[k]));
    let config = names[k];
    let list = of_config(all, config);
    let numbers = doomed(all, config);
    lemma_sorted_numbers(list, list.len() as int);
    lemma_no_violation(config, list, list.len() as int);
    lemma_members(all, config, all.len() as int);
    lemma_readable_positive(selected, selected.len() as int);
    assert forall|i: int| 0 <= i < numbers.len() implies #[trigger] numbers[i] > 0 by {
        let m = choose|m: int|
            0 <= m < list.len() && (#[trigger] list[m]).number == #[trigger] numbers[i];
        assert(all.contains(list[m]));
        let a = choose|a: int| 0 <= a < all.len() && all[a] == list[m];
        assert(all[a].number > 0);
    }
    assert(manual_commands(selected)[c] == delete_command(config, numbers));
}

/// Half a pair keeps the whole config from being touched: no command of the
/// manual rule is for a config of which a pre or post snapshot is selected
/// without the other.
pub proof fn law_half_a_pair_refuses_the_config(selected: Seq<CandidateModel>, i: int, c: int)
    requires
        0 <= i < all_readable(selected).len(),
        0 <= c < manual_commands(selected).len(),
        ({
            let p = all_readable(selected)[i];
            !paired(p, of_config(all_readable(selected), p.config))
        }),
    ensures
        manual_commands(selected)[c].argv[2] != all_readable(selected)[i].config,
{
    let all = all_readable(selected);
    let names = all_configs(selected);
    let p = all[i];
    lemma_delete_commands(all, names, names.len() as int, c);
    let k = choose|k: int|
        0 <= k < names.len() && refusals(all, #[trigger] names[k]).len() == 0 && manual_commands(
            selected,
        )[c] == delete_command(names[k], doomed(all, names[k]));
    let list = of_config(all, names[k]);
    lemma_no_violation(names[k], list, list.len() as int);
    assert(manual_commands(selected)[c].argv[2] == names[k]);
    if names[k] == p.config {
        lemma_members(all, p.config, all.len() as int);
        assert(list.contains(all[i]));
        let m = choose|m: int| 0 <= m < list.len() && list[m] == all[i];
        assert(paired(list[m], list));
    }
}

proof fn lemma_name_slot_fits(names: Seq<Seq<char>>, x: Seq<char>, end: int)
    requires
        0 <= end <= names.len(),
    ensures
        0 <= name_slot(names, x, end) <= end,
    decreases end,
{
    if end > 0 && order::before(x, names[end - 1]) {
        lemma_name_slot_fits(names, x, end - 1);
    }
}

proof fn lemma_config_names_hold(all: Seq<LabelModel>, n: int, i: int)
    requires
        0 <= i < n <= all.len(),
    ensures
        config_names(all, n).contains(all[i].config),
    decreases n,
{
    let before = config_names(all, n - 1);
    let x = all[n - 1].config;
    if !before.contains(x) {
        let at = name_slot(before, x, before.len() as int);
        lemma_name_slot_fits(before, x, before.len() as int);
        let now = before.insert(at, x);
        assert(now[at] == x);
        if i < n - 1 {
            lemma_config_names_hold(all, n - 1, i);
            let k = before.index_of(all[i].config);
            if k < at {
                assert(now[k] == before[k]);
            } else {
                assert(now[k + 1] == before[k]);
            }
        }
    } else if i < n - 1 {
        lemma_config_names_hold(all, n - 1, i);
    }
}

proof fn lemma_delete_commands_hold(all: Seq<LabelModel>, names: Seq<Seq<char>>, n: int, k: int)
    requires
        0 <= k < n <= names.len(),
        refusals(all, names[k]).len() == 0,
    ensures
        delete_commands(all, names, n).contains(delete_command(names[k], doomed(all, names[k]))),
    decreases n,
{
    let before = delete_commands(all, names, n - 1);
    let now = delete_commands(all, names, n);
    if k == n - 1 {
        assert(now.last() == delete_command(names[k], doomed(all, names[k])));
    } else {
        lemma_delete_commands_hold(all, names, n - 1, k);
        let c = before.index_of(delete_command(names[k], doomed(all, names[k])));
        assert(now[c] == before[c]);
    }
}

proof fn lemma_delete_refusals_hold(
    all: Seq<LabelModel>,
    names: Seq<Seq<char>>,
    n: int,
    k: int,
    j: int,
)
    requires
        0 <= k < n <= names.len(),
        0 <= j < refusals(all, names[k]).len(),
    ensures
        delete_refusals(all, names, n).contains(refusals(all, names[k])[j]),
    decreases n,
{
    let before = delete_refusals(all, names, n - 1);
    let now = delete_refusals(all, names, n);
    if k == n - 1 {
        assert(now[before.len() + j] == refusals(all, names[k])[j]);
    } else {
        lemma_delete_refusals_hold(all, names, n - 1, k, j);
        let c = before.index_of(refusals(all, names[k])[j]);
        assert(now[c] == before[c]);
    }
}

proof fn lemma_readable_holds(selected: Seq<CandidateModel>, n: int, i: int)
    requires
        0 <= i < n <= selected.len(),
    ensures
        match label_read(selected[i].label) {
            Some(p) => readable(selected, n).contains(p),
            None => unreadable(selected, n).contains(
                (selected[i].label, "could not be safely interpreted — not deleted"@),
            ),
        },
    decreases n,
{
    if i < n - 1 {
        lemma_readable_holds(selected, n - 1, i);
        match label_read(selected[i].label) {
            Some(p) => {
                let k = readable(selected, n - 1).index_of(p);
                assert(readable(selected, n)[k] == p);
            },
            None => {
                let note = (
                    selected[i].label,
                    "could not be safely interpreted — not deleted"@,
                );
                let k = unreadable(selected, n - 1).index_of(note);
                assert(unreadable(selected, n)[k] == note);
            },
        }
    } else {
        match label_read(selected[i].label) {
            Some(p) => {
                assert(readable(selected, n).last() == p);
            },
            None => {
                assert(unreadable(selected, n).last().0 == selected[i].label);
            },
        }
    }
}

/// Nothing that was selected is dropped silently: a label that cannot be
/// read is noted, and a snapshot is deleted unless a note says why its
/// config is left alone.
pub proof fn law_no_selected_snapshot_is_dropped(selected: Seq<CandidateModel>, i: int)
    requires
        0 <= i < selected.len(),
    ensures
        match label_read(selected[i].label) {
            None => manual_refusals(selected).contains(
                (selected[i].label, "could not be safely interpreted — not deleted"@),
            ),
            Some(p) => {
                ||| exists|list: Seq<u64>|
                    manual_commands(selected).contains(#[trigger] delete_command(p.config, list))
                        && list.contains(p.number)
                ||| exists|q: LabelModel|
                    q.config == p.config && manual_refusals(selected).contains(
                        #[trigger] violation(p.config, q),
                    )
            },
        },
{
    let all = all_readable(selected);
    let names = all_configs(selected);
    lemma_readable_holds(selected, selected.len() as int, i);
    let notes = unreadable(selected, selected.len() as int);
    match label_read(selected[i].label) {
        None => {
            let note = (selected[i].label, "could not be safely interpreted — not deleted"@);
            let k = notes.index_of(note);
            assert(manual_refusals(selected)[k] == note);
        },
        Some(p) => {
            let a = all.index_of(p);
            lemma_config_names_hold(all, all.len() as int, a);
            let k = names.index_of(p.config);
            let list = of_config(all, p.config);
            lemma_members(all, p.config, all.len() as int);
            if refusals(all, p.config).len() == 0 {
                lemma_delete_commands_hold(all, names, names.len() as int, k);
                lemma_sorted_numbers(list, list.len() as int);
                assert(list.contains(all[a]));
                let m = list.index_of(p);
                assert(doomed(all, p.config).contains(list[m].number));
                assert(manual_commands(selected).contains(
                    delete_command(p.config, doomed(all, p.config)),
                ));
            } else {
                lemma_first_violation(p.config, list, list.len() as int);
                let q = choose|q: LabelModel|
                    list.contains(q) && refusals(all, p.config)[0] == #[trigger] violation(
                        p.config,
                        q,
                    );
                let m = list.index_of(q);
                assert(list[m].config == p.config);
                lemma_delete_refusals_hold(all, names, names.len() as int, k, 0);
                let rest = delete_refusals(all, names, names.len() as int);
                let c = rest.index_of(violation(p.config, q));
                assert(manual_refusals(selected)[notes.len() + c] == violation(p.config, q));
                assert(manual_refusals(selected).contains(violation(p.config, q)));
            }
        },
    }
}

proof fn lemma_first_violation(config: Seq<char>, list: Seq<LabelModel>, n: int)
    requires
        0 <= n <= list.len(),
        violations(config, list, n).len() > 0,
    ensures
        exists|q: LabelModel|
            list.contains(q) && violations(config, list, n)[0] == #[trigger] violation(config, q),
    decreases n,
{
    let before = violations(config, list, n - 1);
    if before.len() > 0 {
        lemma_first_violation(config, list, n - 1);
        assert(violations(config, list, n)[0] == before[0]);
    } else {
        assert(list.contains(list[n - 1]));
        assert(violations(config, list, n)[0] == violation(config, list[n - 1]));
    }
}

proof fn lemma_config_candidates(
    config: Seq<char>,
    list: Seq<SnapshotModel>,
    n: int,
    protected: Set<nat>,
    c: int,
)
    requires
        0 <= n <= list.len(),
        0 <= c < config_candidates(config, list, n, protected).len(),
    ensures
        exists|k: int|
            0 <= k < n && may_offer(#[trigger] list[k], protected) && config_candidates(
                config,
                list,
                n,
                protected,
            )[c].label == snapshot_label(config, list[k]),
    decreases n,
{
    if n > 0 {
        let before = config_candidates(config, list, n - 1, protected);
        if c < before.len() {
            lemma_config_candidates(config, list, n - 1, protected, c);
            let k = choose|k: int|
                0 <= k < n - 1 && may_offer(#[trigger] list[k], protected) && before[c].label
                    == snapshot_label(config, list[k]);
            assert(may_offer(list[k], protected));
            assert(config_candidates(config, list, n, protected)[c] == before[c]);
        } else {
            assert(may_offer(list[n - 1], protected));
        }
    }
}

/// A snapshot that the manual detector offers is neither number 0 nor the
/// booted nor the default one, and its config has a safe name.
pub proof fn law_protected_snapshots_are_never_offered(
    configs: Seq<(Seq<char>, Seq<char>)>,
    n: int,
    log: Seq<Exchange>,
    base: int,
    protected: Set<nat>,
    c: int,
)
    requires
        0 <= n <= configs.len(),
        0 <= c < manual_candidates(configs, n, log, base, protected).len(),
    ensures
        exists|config: Seq<char>, s: SnapshotModel|
            {
                &&& valid_config_name(config)
                &&& may_offer(s, protected)
                &&& manual_candidates(configs, n, log, base, protected)[c].label
                    == #[trigger] snapshot_label(config, s)
            },
    decreases n,
{
    if n > 0 {
        let before = manual_candidates(configs, n - 1, log, base, protected);
        if c < before.len() {
            law_protected_snapshots_are_never_offered(configs, n - 1, log, base, protected, c);
            assert(manual_candidates(configs, n, log, base, protected)[c] == before[c]);
        } else {
            let name = configs[n - 1].0;
            let list = snapper::snapshots_reply(
                log[base + valid_count(configs, n - 1)].reply,
                name,
            )->Ok_0;
            lemma_config_candidates(name, list, list.len() as int, protected, c - before.len());
            let k = choose|k: int|
                0 <= k < list.len() && may_offer(#[trigger] list[k], protected)
                    && config_candidates(name, list, list.len() as int, protected)[c
                    - before.len()].label == snapshot_label(name, list[k]);
            assert(manual_candidates(configs, n, log, base, protected)[c].label
                == snapshot_label(name, list[k]));
        }
    }
}

// ------------------------------------------------------------------------ laws


/// Every snapshot of a config but the running system's, the booted and the
/// default one is offered under its config and number, and not selected.
pub proof fn law_the_other_snapshots_are_offered(
    config: Seq<char>,
    list: Seq<SnapshotModel>,
    n: int,
    booted: Option<nat>,
    default: Option<nat>,
)
    requires
        0 <= n <= list.len(),
        booted is Some || default is Some,
    ensures
        order::stands_for(
            config_candidates(config, list, n, snapper::protected(booted, default)->0),
            list,
            n,
            |s: SnapshotModel|
                s.number != 0 && booted != Some(s.number as nat) && default != Some(
                    s.number as nat,
                ),
            |c: CandidateModel, s: SnapshotModel|
                {
                    &&& c.label == snapshot_label(config, s)
                    &&& text::starts_with(
                        c.label,
                        config + ": #"@ + text::decimal(s.number as nat),
                    )
                    &&& c.path is None
                    &&& !c.selectable
                },
        ),
    decreases n,
{
    let spared = snapper::protected(booted, default)->0;
    let wanted = |s: SnapshotModel|
        s.number != 0 && booted != Some(s.number as nat) && default != Some(s.number as nat);
    let fits = |c: CandidateModel, s: SnapshotModel|
        {
            &&& c.label == snapshot_label(config, s)
            &&& text::starts_with(c.label, config + ": #"@ + text::decimal(s.number as nat))
            &&& c.path is None
            &&& !c.selectable
        };
    let out = config_candidates(config, list, n, spared);
    if n > 0 {
        law_the_other_snapshots_are_offered(config, list, n - 1, booted, default);
        let before = config_candidates(config, list, n - 1, spared);
        let s = list[n - 1];
        snapper::law_booted_and_default_are_spared(booted, default, s.number as nat);
        let c = fresh(None, snapshot_label(config, s), 0, Risk::Risky);
        let lead = config + ": #"@ + text::decimal(s.number as nat);
        let rest = marker(s.snap_type, s.pre_number) + remarks(s.date, s.description);
        assert(c.label =~= lead + rest);
        assert((lead + rest).subrange(0, lead.len() as int) =~= lead);
        assert(fits(c, s));
        if wanted(s) {
            order::lemma_stands_for_more(before, list, n, wanted, fits, c);
        } else {
            order::lemma_stands_for_same(before, list, n, wanted, fits);
        }
    } else {
        order::lemma_stands_for_none(out, list, wanted, fits);
    }
}

/// Where neither the booted nor the default snapshot is known, none is
/// offered.
pub proof fn law_nothing_is_offered_blindly(log: Seq<Exchange>, start: int)
    requires
        log[start].reply is Err || !log[start].reply->Ok_0.success,
    ensures
        manual_found(log, start, None).0.len() == 0,
{
}

/// Every config with a safe name is offered for cleanup, with the number of
/// its snapshots, and its cleanup runs on that config alone.
pub proof fn law_configs_are_offered_for_cleanup(
    configs: Seq<(Seq<char>, Seq<char>)>,
    n: int,
    log: Seq<Exchange>,
    base: int,
    suffix: Seq<char>,
    i: int,
)
    requires
        0 <= i < n <= configs.len(),
        valid_config_name(configs[i].0),
    ensures
        ({
            let list = cleanup_candidates(configs, n, log, base, suffix);
            let name = configs[i].0;
            let reply = snapper::snapshots_reply(
                log[base + valid_count(configs, i)].reply,
                name,
            );
            let count = if reply is Ok {
                reply->Ok_0.len()
            } else {
                0
            };
            exists|k: int|
                {
                    &&& 0 <= k < list.len()
                    &&& (#[trigger] list[k]).label
                        == "run snapper cleanup 'number' for config "@ + name + " ("@
                        + text::decimal(count) + " snapshots)"@ + suffix
                    &&& !list[k].selectable
                }
        }),
        cleanup_command(configs[i].0).argv == seq![
            "snapper"@,
            "-c"@,
            configs[i].0,
            "cleanup"@,
            "number"@,
        ],
        cleanup_command(configs[i].0).sudo,
    decreases n,
{
    let before = cleanup_candidates(configs, n - 1, log, base, suffix);
    let list = cleanup_candidates(configs, n, log, base, suffix);
    if i < n - 1 {
        law_configs_are_offered_for_cleanup(configs, n - 1, log, base, suffix, i);
        let name = configs[i].0;
        let count = count_in(log[base + valid_count(configs, i)], name);
        let label = "run snapper cleanup 'number' for config "@ + name + " ("@ + text::decimal(
            count,
        ) + " snapshots)"@ + suffix;
        let k = choose|k: int|
            {
                &&& 0 <= k < before.len()
                &&& (#[trigger] before[k]).label == label
                &&& !before[k].selectable
            };
        assert(list[k] == before[k]);
    } else {
        assert(list[before.len() as int] == list.last());
    }
}

proof fn lemma_read_from(selected: Seq<CandidateModel>, n: int, p: LabelModel) -> (i: int)
    requires
        0 <= n <= selected.len(),
        readable(selected, n).contains(p),
    ensures
        0 <= i < n,
        label_read(selected[i].label) == Some(p),
    decreases n,
{
    if n == 0 {
        arbitrary()
    } else if readable(selected, n - 1).contains(p) {
        lemma_read_from(selected, n - 1, p)
    } else {
        let now = readable(selected, n);
        let before = readable(selected, n - 1);
        let k = choose|k: int| 0 <= k < now.len() && now[k] == p;
        if k < before.len() {
            assert(before[k] == p);
        }
        n - 1
    }
}

/// The two snapshots of a pair go together or not at all: where one is
/// selected and the other is not, nothing of that config is deleted.
pub proof fn law_pairs_go_together(
    selected: Seq<CandidateModel>,
    i: int,
    p: LabelModel,
    c: int,
)
    requires
        0 <= i < selected.len(),
        label_read(selected[i].label) == Some(p),
        0 <= c < manual_commands(selected).len(),
        match p.kind {
            ParsedKind::Single => false,
            ParsedKind::Pre => forall|j: int|
                0 <= j < selected.len() ==> match label_read((#[trigger] selected[j]).label) {
                    Some(q) => q.config != p.config || q.kind != ParsedKind::Post(Some(p.number)),
                    None => true,
                },
            ParsedKind::Post(Some(n)) => forall|j: int|
                0 <= j < selected.len() ==> match label_read((#[trigger] selected[j]).label) {
                    Some(q) => q.config != p.config || q.number != n,
                    None => true,
                },
            ParsedKind::Post(None) => true,
        },
    ensures
        manual_commands(selected)[c].argv[2] != p.config,
{
    let all = all_readable(selected);
    lemma_readable_holds(selected, selected.len() as int, i);
    let at = choose|at: int| 0 <= at < all.len() && all[at] == p;
    let list = of_config(all, p.config);
    lemma_members(all, p.config, all.len() as int);
    if paired(p, list) {
        let m = match p.kind {
            ParsedKind::Post(Some(n)) => choose|m: int|
                0 <= m < list.len() && (#[trigger] list[m]).number == n,
            _ => choose|m: int|
                0 <= m < list.len() && (#[trigger] list[m]).kind == ParsedKind::Post(
                    Some(p.number),
                ),
        };
        assert(all.contains(list[m]));
        let j = lemma_read_from(selected, selected.len() as int, list[m]);
        assert(label_read(selected[j].label) == Some(list[m]));
    }
    law_half_a_pair_refuses_the_config(selected, at, c);
}

/// Half a pair goes only where the other half is selected with it, wherever in
/// the selection that is; what is no pair goes by itself.
pub proof fn law_halves_go_together(p: LabelModel, list: Seq<LabelModel>, i: int)
    ensures
        p.kind == ParsedKind::Single ==> paired(p, list),
        p.kind == ParsedKind::Post(None) ==> !paired(p, list),
        0 <= i < list.len() && p.kind == ParsedKind::Pre && list[i].kind == ParsedKind::Post(
            Some(p.number),
        ) ==> paired(p, list),
        0 <= i < list.len() && p.kind == ParsedKind::Post(Some(list[i].number)) ==> paired(p, list),
        p.kind == ParsedKind::Pre || p.kind is Post ==> !paired(p, Seq::empty()),
{
}

} // verus!

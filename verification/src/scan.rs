//! Scanning: which rules apply and what each of them offers.

use vstd::prelude::*;

use crate::config::Config;
use crate::ctx::Ctx;
use crate::host;
use crate::host::{command_exists, Host};
use crate::item::{
    candidates, fresh, groups, skips, unticked, Candidate, CandidateModel, Group, GroupModel, Risk,
    Skip,
};
use crate::labels;
use crate::labels::display_label;
use crate::order;
use crate::paths;
use crate::pkg::flatpak;
use crate::rules::{
    command, dev, expand_all, expand_path_spec, expanded, expanded_all, leftovers, moderate, models,
    optimize, registry_table, snap, snapshots, strs, user, Action, Applicability,
    ApplicabilityModel, Condition, Detector, DetectorModel, Finder, NotingFinder, Rule, RuleModel,
};
use crate::runner::{CommandRunner, Exchange};
use crate::safety::protected::{
    refusal_text, validate_deletable, verdict, SafetyEnv, Tier,
};
use crate::safety::whitelist::{
    any_matches, glob_error, glob_matches, set_error, Pattern, Whitelist,
};
use crate::snapper;
use crate::snapper::SnapshotModel;
use crate::text;

verus! {

broadcast use vstd::seq::group_seq_axioms;

// --------------------------------------------------------------- applicability

pub open spec fn any_available(names: Seq<Seq<char>>, ctx: &Ctx, host: &Host) -> bool {
    exists|i: int| 0 <= i < names.len() && host::available(#[trigger] names[i], ctx, host)
}

/// Whether a rule makes sense here.
pub open spec fn applies(a: ApplicabilityModel, ctx: &Ctx, host: &Host) -> bool {
    match a {
        ApplicabilityModel::Always => true,
        ApplicabilityModel::CommandExists(name) => host::available(name, ctx, host),
        ApplicabilityModel::CommandExistsAny(names) => any_available(names, ctx, host),
        ApplicabilityModel::PathExists(path) => host.real_path(
            expanded(path, ctx.root@, ctx.home@),
        ) is Some,
        ApplicabilityModel::Fn(Condition::Mirrors) => optimize::chosen_mirror_tool(
            ctx,
            host,
        ) is Some,
        ApplicabilityModel::Fn(Condition::Snapper) => snapshots::snapper_applies(ctx, host),
    }
}

pub fn is_applicable(applicable: &Applicability, ctx: &Ctx, host: &Host) -> (r: bool)
    ensures
        r == applies(applicable@, ctx, host),
{
    match applicable {
        Applicability::Always => true,
        Applicability::CommandExists(name) => command_exists(name, ctx, host),
        Applicability::CommandExistsAny(names) => {
            let ghost all = strs(names@);
            let mut i: usize = 0;
            while i < names.len()
                invariant
                    i <= names.len(),
                    all == strs(names@),
                    applicable@ == ApplicabilityModel::CommandExistsAny(all),
                    forall|k: int| 0 <= k < i ==> !host::available(#[trigger] all[k], ctx, host),
                decreases names.len() - i,
            {
                assert(all[i as int] == names@[i as int]@);
                if command_exists(names[i], ctx, host) {
                    return true;
                }
                i += 1;
            }
            false
        },
        Applicability::PathExists(path) => {
            let path = expand_path_spec(path, ctx);
            host.resolve(path.as_str()).is_some()
        },
        Applicability::Fn(condition) => match condition {
            Condition::Mirrors => optimize::mirrors_applicable(ctx, host),
            Condition::Snapper => snapshots::snapper_applicable(ctx, host),
        },
    }
}

// ----------------------------------------------------------------------- globs

/// The paths of those of the first `n` names that match.
pub open spec fn hits(dir: Seq<char>, names: Seq<Seq<char>>, n: int, pattern: Seq<char>) -> Seq<
    Seq<char>,
>
    decreases n,
{
    if n <= 0 {
        Seq::empty()
    } else if any_matches(seq![pattern], names[n - 1]) {
        hits(dir, names, n - 1, pattern).push(paths::joined(dir, names[n - 1]))
    } else {
        hits(dir, names, n - 1, pattern)
    }
}

/// The existing paths that a spec stands for. Without a `*` it is one path;
/// with one, its last part is matched against the names in the directory.
pub open spec fn glob_paths(spec_text: Seq<char>, ctx: &Ctx, host: &Host) -> Seq<Seq<char>> {
    if !text::contains(spec_text, "*"@) {
        let path = expanded(spec_text, ctx.root@, ctx.home@);
        if host.found(path) is Some {
            seq![path]
        } else {
            Seq::empty()
        }
    } else {
        match text::last_halves(spec_text, "/"@) {
            None => Seq::empty(),
            Some((dir_spec, pattern)) => {
                let dir = expanded(dir_spec, ctx.root@, ctx.home@);
                match host.listing(dir) {
                    Some(names) if glob_error(pattern) is None && set_error(seq![pattern]) is None
                        => order::by_path(hits(dir, names, names.len() as int, pattern)),
                    _ => Seq::empty(),
                }
            },
        }
    }
}

pub fn expand_glob_spec(spec_text: &str, ctx: &Ctx, host: &Host) -> (r: Vec<String>)
    ensures
        text::texts(r@) == glob_paths(spec_text@, ctx, host),
{
    let none: Vec<String> = Vec::new();
    assert(text::texts(none@) =~= Seq::empty());
    if !text::contains_text(spec_text, "*") {
        let path = expand_path_spec(spec_text, ctx);
        if host.find(path.as_str()).is_some() {
            return text::list1(path.as_str());
        }
        return none;
    }
    proof {
        reveal_strlit("/");
    }
    let (dir_spec, file_glob) = match text::cut_at_last(spec_text, "/") {
        Some(halves) => halves,
        None => {
            return none;
        },
    };
    let dir = expand_path_spec(dir_spec.as_str(), ctx);
    let pattern = match Pattern::new(file_glob.as_str()) {
        Some(pattern) => pattern,
        None => {
            return none;
        },
    };
    let names = match host.list(dir.as_str()) {
        Some(names) => names,
        None => {
            return none;
        },
    };
    let ghost all = text::texts(names@);
    let mut out: Vec<String> = Vec::new();
    let mut i: usize = 0;
    assert(text::texts(out@) =~= Seq::empty());
    assert(all.len() == names.len());
    while i < names.len()
        invariant
            i <= names.len(),
            all == text::texts(names@),
            pattern.text() == seq![file_glob@],
            text::texts(out@) == hits(dir@, all, i as int, file_glob@),
        decreases names.len() - i,
    {
        assert(all[i as int] == names@[i as int]@);
        let ghost had = out@;
        if pattern.matches(names[i].as_str()) {
            let path = paths::join(dir.as_str(), names[i].as_str());
            out.push(path);
            assert(text::texts(out@) =~= text::texts(had).push(path@));
        }
        i += 1;
    }
    order::sort_paths(out)
}

/// The candidates of these paths.
pub open spec fn path_candidates(list: Seq<Seq<char>>, risk: Risk, ctx: &Ctx) -> Seq<
    CandidateModel,
> {
    Seq::new(
        list.len(),
        |i: int| fresh(Some(list[i]), labels::shown(list[i], ctx.root@, ctx.home@), 0, risk),
    )
}

/// The candidates of the first `n` patterns.
pub open spec fn glob_candidates(
    patterns: Seq<Seq<char>>,
    n: int,
    risk: Risk,
    ctx: &Ctx,
    host: &Host,
) -> Seq<CandidateModel>
    decreases n,
{
    if n <= 0 {
        Seq::empty()
    } else {
        glob_candidates(patterns, n - 1, risk, ctx, host) + path_candidates(
            glob_paths(patterns[n - 1], ctx, host),
            risk,
            ctx,
        )
    }
}

fn scan_globs(patterns: &Vec<&'static str>, risk: Risk, ctx: &Ctx, host: &Host) -> (r: Vec<
    Candidate,
>)
    ensures
        candidates(r@) == glob_candidates(
            strs(patterns@),
            patterns@.len() as int,
            risk,
            ctx,
            host,
        ),
{
    let ghost all = strs(patterns@);
    let mut out: Vec<Candidate> = Vec::new();
    let mut i: usize = 0;
    assert(candidates(out@) =~= Seq::empty());
    while i < patterns.len()
        invariant
            i <= patterns.len(),
            all == strs(patterns@),
            candidates(out@) == glob_candidates(all, i as int, risk, ctx, host),
        decreases patterns.len() - i,
    {
        assert(all[i as int] == patterns@[i as int]@);
        let list = expand_glob_spec(patterns[i], ctx, host);
        let ghost want = path_candidates(text::texts(list@), risk, ctx);
        let ghost had = out@;
        let mut j: usize = 0;
        assert(candidates(out@) =~= candidates(had) + want.take(0));
        while j < list.len()
            invariant
                j <= list.len(),
                want == path_candidates(text::texts(list@), risk, ctx),
                candidates(out@) == candidates(had) + want.take(j as int),
            decreases list.len() - j,
        {
            let ghost now = out@;
            let label = display_label(list[j].as_str(), ctx);
            let c = Candidate::new(Some(list[j].clone()), label, 0, risk);
            out.push(c);
            assert(text::texts(list@)[j as int] == list@[j as int]@);
            assert(c@ == want[j as int]);
            assert(candidates(out@) =~= candidates(now).push(c@));
            assert(want.take(j + 1) =~= want.take(j as int).push(want[j as int]));
            j += 1;
            assert(candidates(out@) =~= candidates(had) + want.take(j as int));
        }
        assert(want.take(want.len() as int) =~= want);
        i += 1;
    }
    out
}

// ------------------------------------------------------------------- detectors

/// Whether the commands of `log` from `start` on are those of the finder.
pub open spec fn finder_asked(
    finder: Finder,
    ctx: &Ctx,
    host: &Host,
    log: Seq<Exchange>,
    start: int,
) -> bool {
    match finder {
        Finder::PacmanOrphans => command::orphans_asked(log, start),
        Finder::ContainersPrune => moderate::prune_asked(log, start, moderate::tool(ctx, host)),
        Finder::OldRevisions => log.len() == start + 1 && log[start].argv
            == snap::list_all_argv(),
        Finder::OrphanConfigs => leftovers::orphan_asked(
            log,
            start,
            flatpak::available(ctx, host),
        ),
        _ => log.len() == start,
    }
}

/// What the finder finds, given the answers.
pub open spec fn finder_found(
    finder: Finder,
    ctx: &Ctx,
    config: &Config,
    host: &Host,
    log: Seq<Exchange>,
    start: int,
) -> Seq<CandidateModel> {
    match finder {
        Finder::CacheApps => match host.listing(paths::joined(ctx.home@, ".cache"@)) {
            Some(names) => user::cache_apps(names, names.len() as int, ctx, host),
            None => Seq::empty(),
        },
        Finder::Trash => match host.listing(
            paths::joined(ctx.home@, ".local/share/Trash/files"@),
        ) {
            Some(names) => user::trash_items(
                names,
                names.len() as int,
                ctx,
                config.clean.trash_older_than_days,
                host,
            ),
            None => Seq::empty(),
        },
        Finder::PacmanCache => command::sized_dir("/var/cache/pacman/pkg"@, ctx, Risk::Safe),
        Finder::Journald => command::sized_dir("/var/log/journal"@, ctx, Risk::Moderate),
        Finder::PacmanOrphans => command::orphans_found(log, start),
        Finder::FlatpakUnused => moderate::informational(
            "unused flatpak runtimes"@,
            Risk::Moderate,
        ),
        Finder::FlatpakAppCaches => order::by_label(
            match host.listing(paths::joined(ctx.home@, ".var/app"@)) {
                Some(names) => moderate::app_caches(names, names.len() as int, ctx, host),
                None => Seq::empty(),
            },
        ),
        Finder::ContainersPrune => moderate::prune_found(log, start),
        Finder::OldRevisions => snap::old_revisions_reply(log[start].reply),
        Finder::OrphanConfigs => leftovers::orphans_found(
            log,
            start,
            ctx,
            config.clean.orphan_min_age_days,
            host,
        ),
        Finder::Fstrim => moderate::informational(
            "Trim free space on all mounted filesystems (fstrim -av)"@,
            Risk::Safe,
        ),
        Finder::ResetFailed => moderate::informational(
            "Clear failed-unit counters (system + user)"@,
            Risk::Safe,
        ),
        Finder::FontCache => moderate::informational(
            "Rebuild the fontconfig cache (fc-cache -f)"@,
            Risk::Safe,
        ),
        Finder::DesktopDb => moderate::informational(
            "Refresh desktop entry, icon, and MIME databases"@,
            Risk::Safe,
        ),
        Finder::PacmanFiles => moderate::informational(
            "Refresh pacman's file-list database (pacman -Fy) — large download"@,
            Risk::Moderate,
        ),
        Finder::Mirrors => moderate::informational(
            "Refresh mirror list via "@ + optimize::mirror_tool_or_reflector(ctx, host),
            Risk::Moderate,
        ),
        Finder::Updatedb => moderate::informational(
            "Update the mlocate/plocate search database (updatedb)"@,
            Risk::Safe,
        ),
    }
}

fn find<R: CommandRunner>(
    finder: Finder,
    ctx: &Ctx,
    config: &Config,
    host: &Host,
    runner: &mut R,
) -> (r: Vec<Candidate>)
    ensures
        final(runner).prepared() == old(runner).prepared(),
        ({
            let start = old(runner).exchanges().len() as int;
            let log = final(runner).exchanges();
            &&& log.len() >= start
            &&& log.take(start) == old(runner).exchanges()
            &&& finder_asked(finder, ctx, host, log, start)
            &&& candidates(r@) == finder_found(finder, ctx, config, host, log, start)
        }),
{
    let ghost before = runner.exchanges();
    assert(before.take(before.len() as int) =~= before);
    match finder {
        Finder::CacheApps => user::cache_apps_detector(ctx, host),
        Finder::Trash => user::trash_detector(ctx, config, host),
        Finder::PacmanCache => command::pacman_cache_size(ctx),
        Finder::Journald => command::journald_size(ctx),
        Finder::PacmanOrphans => command::pacman_orphans_detector(runner),
        Finder::FlatpakUnused => moderate::flatpak_unused_detector(),
        Finder::FlatpakAppCaches => moderate::flatpak_app_caches_detector(ctx, host),
        Finder::ContainersPrune => moderate::containers_prune_detector(ctx, host, runner),
        Finder::OldRevisions => {
            let out = snap::old_revisions_detector(runner);
            assert(runner.exchanges().take(before.len() as int) =~= runner.exchanges().drop_last());
            out
        },
        Finder::OrphanConfigs => leftovers::orphan_configs_detector(ctx, config, host, runner),
        Finder::Fstrim => optimize::fstrim_detector(),
        Finder::ResetFailed => optimize::reset_failed_detector(),
        Finder::FontCache => optimize::font_cache_detector(),
        Finder::DesktopDb => optimize::desktop_db_detector(),
        Finder::PacmanFiles => optimize::pacman_files_detector(),
        Finder::Mirrors => optimize::mirrors_detector(ctx, host),
        Finder::Updatedb => optimize::updatedb_detector(),
    }
}

/// Whether the commands of `log` from `start` on are those of the detector.
pub open spec fn detector_asked(
    detector: DetectorModel,
    ctx: &Ctx,
    host: &Host,
    log: Seq<Exchange>,
    start: int,
) -> bool {
    match detector {
        DetectorModel::Globs(_) => log.len() == start,
        DetectorModel::Fn(finder) => finder_asked(finder, ctx, host, log, start),
        DetectorModel::FnWithSkips(NotingFinder::SnapperCleanup) => snapshots::cleanup_asked(
            log,
            start,
        ),
        DetectorModel::FnWithSkips(NotingFinder::SnapperManual) => snapshots::manual_asked(
            log,
            start,
            snapper::booted(ctx, host),
        ),
    }
}

/// What the detector of a rule finds, and its notes on what it leaves out.
pub open spec fn detected(
    rule: RuleModel,
    ctx: &Ctx,
    config: &Config,
    host: &Host,
    log: Seq<Exchange>,
    start: int,
) -> (Seq<CandidateModel>, Seq<(Seq<char>, Seq<char>)>) {
    match rule.detector {
        DetectorModel::Globs(patterns) => (
            glob_candidates(patterns, patterns.len() as int, rule.risk, ctx, host),
            Seq::empty(),
        ),
        DetectorModel::Fn(finder) => (
            finder_found(finder, ctx, config, host, log, start),
            Seq::empty(),
        ),
        DetectorModel::FnWithSkips(NotingFinder::SnapperCleanup) => snapshots::cleanup_found(
            log,
            start,
        ),
        DetectorModel::FnWithSkips(NotingFinder::SnapperManual) => snapshots::manual_found(
            log,
            start,
            snapper::booted(ctx, host),
        ),
    }
}

pub fn raw_candidates<R: CommandRunner>(
    rule: &Rule,
    ctx: &Ctx,
    config: &Config,
    host: &Host,
    runner: &mut R,
) -> (r: (Vec<Candidate>, Vec<Skip>))
    ensures
        final(runner).prepared() == old(runner).prepared(),
        ({
            let start = old(runner).exchanges().len() as int;
            let log = final(runner).exchanges();
            &&& log.len() >= start
            &&& log.take(start) == old(runner).exchanges()
            &&& detector_asked(rule@.detector, ctx, host, log, start)
            &&& (candidates(r.0@), skips(r.1@)) == detected(
                rule@,
                ctx,
                config,
                host,
                log,
                start,
            )
        }),
{
    let ghost before = runner.exchanges();
    assert(before.take(before.len() as int) =~= before);
    let none: Vec<Skip> = Vec::new();
    assert(skips(none@) =~= Seq::empty());
    match &rule.detector {
        Detector::Globs(patterns) => {
            assert(strs(patterns@).len() == patterns@.len());
            (scan_globs(patterns, rule.risk, ctx, host), none)
        },
        Detector::Fn(finder) => (find(*finder, ctx, config, host, runner), none),
        Detector::FnWithSkips(finder) => match finder {
            NotingFinder::SnapperCleanup => snapshots::cleanup_detector(runner),
            NotingFinder::SnapperManual => snapshots::manual_detector(ctx, host, runner),
        },
    }
}

// ------------------------------------------------------------------- finishing

pub open spec fn tier_of(requires_sudo: bool) -> Tier {
    if requires_sudo {
        Tier::System
    } else {
        Tier::User
    }
}

pub fn tier_for(requires_sudo: bool) -> (r: Tier)
    ensures
        r == tier_of(requires_sudo),
{
    if requires_sudo {
        Tier::System
    } else {
        Tier::User
    }
}

/// A candidate that may be deleted: with its size, and out of reach if it is
/// on the whitelist.
pub open spec fn offered(c: CandidateModel, whitelist: &Whitelist, host: &Host) -> CandidateModel {
    let path = c.path->Some_0;
    CandidateModel {
        bytes: host.size_of(path),
        selectable: c.selectable && !whitelist.covers(path),
        whitelisted: c.whitelisted || whitelist.covers(path),
        ..c
    }
}

/// Those of the first `n` candidates that have a path and may be deleted.
pub open spec fn deletable(
    raw: Seq<CandidateModel>,
    n: int,
    allowed: Seq<Seq<char>>,
    tier: Tier,
    whitelist: &Whitelist,
    env: &SafetyEnv,
    host: &Host,
) -> Seq<CandidateModel>
    decreases n,
{
    if n <= 0 {
        Seq::empty()
    } else {
        let before = deletable(raw, n - 1, allowed, tier, whitelist, env, host);
        match raw[n - 1].path {
            Some(path) if verdict(path, allowed, tier, env, host) is None => before.push(
                offered(raw[n - 1], whitelist, host),
            ),
            _ => before,
        }
    }
}

/// The notes on those that may not.
pub open spec fn refused(
    raw: Seq<CandidateModel>,
    n: int,
    allowed: Seq<Seq<char>>,
    tier: Tier,
    env: &SafetyEnv,
    host: &Host,
) -> Seq<(Seq<char>, Seq<char>)>
    decreases n,
{
    if n <= 0 {
        Seq::empty()
    } else {
        let before = refused(raw, n - 1, allowed, tier, env, host);
        match raw[n - 1].path {
            Some(path) => match verdict(path, allowed, tier, env, host) {
                Some(refusal) => before.push((raw[n - 1].label, refusal_text(refusal))),
                None => before,
            },
            None => before,
        }
    }
}

pub fn finish_deletable_candidates(
    rule: &Rule,
    raw: Vec<Candidate>,
    ctx: &Ctx,
    whitelist: &Whitelist,
    env: &SafetyEnv,
    host: &Host,
) -> (r: (Vec<Candidate>, Vec<Skip>))
    ensures
        ({
            let allowed = expanded_all(rule@.allowed_prefixes, ctx.root@, ctx.home@);
            let tier = tier_of(rule.requires_sudo);
            let n = raw@.len() as int;
            &&& candidates(r.0@) == deletable(
                candidates(raw@),
                n,
                allowed,
                tier,
                whitelist,
                env,
                host,
            )
            &&& skips(r.1@) == refused(candidates(raw@), n, allowed, tier, env, host)
        }),
{
    let tier = tier_for(rule.requires_sudo);
    let allowed = expand_all(&rule.allowed_prefixes, ctx.root.as_str(), ctx.home.as_str());
    let ghost want = text::texts(allowed@);
    let ghost all = candidates(raw@);
    let mut out: Vec<Candidate> = Vec::new();
    let mut notes: Vec<Skip> = Vec::new();
    let mut i: usize = 0;
    assert(candidates(out@) =~= Seq::empty());
    assert(skips(notes@) =~= Seq::empty());
    while i < raw.len()
        invariant
            i <= raw.len(),
            all == candidates(raw@),
            want == text::texts(allowed@),
            candidates(out@) == deletable(all, i as int, want, tier, whitelist, env, host),
            skips(notes@) == refused(all, i as int, want, tier, env, host),
        decreases raw.len() - i,
    {
        assert(all[i as int] == raw@[i as int]@);
        let ghost had = out@;
        let ghost noted = notes@;
        if let Some(path) = &raw[i].path {
            match validate_deletable(path.as_str(), &allowed, tier, env, host) {
                Err(refusal) => {
                    let note = (raw[i].label.clone(), refusal.message());
                    notes.push(note);
                    assert(skips(notes@) =~= skips(noted).push((note.0@, note.1@)));
                },
                Ok(_) => {
                    let mut c = raw[i].clone();
                    if whitelist.matches(path.as_str()) {
                        c.whitelisted = true;
                        c.selectable = false;
                    }
                    c.bytes = host.size(path.as_str());
                    out.push(c);
                    assert(c@ == offered(all[i as int], whitelist, host));
                    assert(candidates(out@) =~= candidates(had).push(c@));
                },
            }
        }
        i += 1;
    }
    (out, notes)
}

/// A candidate of a command: its size is only shown. It is neither checked
/// nor whitelisted, since the command decides what is removed.
pub open spec fn sized(c: CandidateModel, host: &Host) -> CandidateModel {
    match c.path {
        Some(path) => CandidateModel { bytes: host.size_of(path), ..c },
        None => c,
    }
}

pub open spec fn all_sized(raw: Seq<CandidateModel>, host: &Host) -> Seq<CandidateModel> {
    Seq::new(raw.len(), |i: int| sized(raw[i], host))
}

pub fn size_only(raw: Vec<Candidate>, host: &Host) -> (r: Vec<Candidate>)
    ensures
        candidates(r@) == all_sized(candidates(raw@), host),
{
    let mut out: Vec<Candidate> = Vec::new();
    let mut i: usize = 0;
    while i < raw.len()
        invariant
            i <= raw.len(),
            out.len() == i,
            forall|k: int| 0 <= k < i ==> (#[trigger] out@[k])@ == sized(raw@[k]@, host),
        decreases raw.len() - i,
    {
        let mut c = raw[i].clone();
        if let Some(path) = &raw[i].path {
            c.bytes = host.size(path.as_str());
        }
        out.push(c);
        i += 1;
    }
    assert(candidates(out@) =~= all_sized(candidates(raw@), host));
    out
}

/// The group of a rule, given what its detector found.
pub open spec fn group_of(
    rule: RuleModel,
    found: (Seq<CandidateModel>, Seq<(Seq<char>, Seq<char>)>),
    ctx: &Ctx,
    whitelist: &Whitelist,
    env: &SafetyEnv,
    host: &Host,
) -> GroupModel {
    let allowed = expanded_all(rule.allowed_prefixes, ctx.root@, ctx.home@);
    let tier = tier_of(rule.requires_sudo);
    let n = found.0.len() as int;
    GroupModel {
        rule_id: rule.id,
        title: rule.title,
        risk: rule.risk,
        requires_sudo: rule.requires_sudo,
        candidates: if rule.action == Action::DeletePaths {
            deletable(found.0, n, allowed, tier, whitelist, env, host)
        } else {
            all_sized(found.0, host)
        },
        skipped: if rule.action == Action::DeletePaths {
            found.1 + refused(found.0, n, allowed, tier, env, host)
        } else {
            found.1
        },
    }
}

pub fn scan_rule<R: CommandRunner>(
    rule: &Rule,
    ctx: &Ctx,
    config: &Config,
    whitelist: &Whitelist,
    env: &SafetyEnv,
    host: &Host,
    runner: &mut R,
) -> (r: Group)
    ensures
        final(runner).prepared() == old(runner).prepared(),
        ({
            let start = old(runner).exchanges().len() as int;
            let log = final(runner).exchanges();
            &&& log.len() >= start
            &&& log.take(start) == old(runner).exchanges()
            &&& detector_asked(rule@.detector, ctx, host, log, start)
            &&& r@ == group_of(
                rule@,
                detected(rule@, ctx, config, host, log, start),
                ctx,
                whitelist,
                env,
                host,
            )
        }),
{
    let (raw, notes) = raw_candidates(rule, ctx, config, host, runner);
    let ghost found = (candidates(raw@), skips(notes@));
    assert(found.0.len() == raw@.len());
    let (list, skipped) = match rule.action {
        Action::DeletePaths => {
            let (list, mut more) = finish_deletable_candidates(
                rule,
                raw,
                ctx,
                whitelist,
                env,
                host,
            );
            let mut skipped = notes;
            let ghost a = skipped@;
            let ghost b = more@;
            skipped.append(&mut more);
            assert(skips(skipped@) =~= skips(a) + skips(b));
            (list, skipped)
        },
        _ => (size_only(raw, host), notes),
    };
    Group {
        rule_id: rule.id.to_owned(),
        title: rule.title.to_owned(),
        risk: rule.risk,
        requires_sudo: rule.requires_sudo,
        candidates: list,
        skipped,
    }
}

/// Those of the first `n` rules that apply.
pub open spec fn applying(rules: Seq<RuleModel>, n: int, ctx: &Ctx, host: &Host) -> Seq<RuleModel>
    decreases n,
{
    if n <= 0 {
        Seq::empty()
    } else if applies(rules[n - 1].applicable, ctx, host) {
        applying(rules, n - 1, ctx, host).push(rules[n - 1])
    } else {
        applying(rules, n - 1, ctx, host)
    }
}

/// Whether `list` is what the rules offer. `marks` says where in the log the
/// commands of each rule start and end: rule `k` ran those from `marks[k]` to
/// `marks[k + 1]`.
pub open spec fn scanned(
    rules: Seq<RuleModel>,
    list: Seq<GroupModel>,
    marks: Seq<int>,
    ctx: &Ctx,
    config: &Config,
    whitelist: &Whitelist,
    env: &SafetyEnv,
    host: &Host,
    log: Seq<Exchange>,
) -> bool {
    &&& list.len() == rules.len()
    &&& marks.len() == rules.len() + 1
    &&& forall|k: int|
        #![trigger list[k]]
        0 <= k < rules.len() ==> {
            &&& 0 <= marks[k] <= marks[k + 1] <= log.len()
            &&& detector_asked(
                rules[k].detector,
                ctx,
                host,
                log.take(marks[k + 1]),
                marks[k],
            )
            &&& list[k] == group_of(
                rules[k],
                detected(rules[k], ctx, config, host, log.take(marks[k + 1]), marks[k]),
                ctx,
                whitelist,
                env,
                host,
            )
        }
}

/// Whether `list` is what the applicable rules offer, going by the commands
/// run between `before` and `after`.
pub open spec fn scan_found(
    rules: Seq<RuleModel>,
    list: Seq<GroupModel>,
    ctx: &Ctx,
    config: &Config,
    whitelist: &Whitelist,
    env: &SafetyEnv,
    host: &Host,
    before: Seq<Exchange>,
    after: Seq<Exchange>,
) -> bool {
    &&& after.len() >= before.len()
    &&& after.take(before.len() as int) == before
    &&& exists|marks: Seq<int>|
        {
            &&& #[trigger] scanned(
                applying(rules, rules.len() as int, ctx, host),
                list,
                marks,
                ctx,
                config,
                whitelist,
                env,
                host,
                after,
            )
            &&& marks[0] == before.len()
            &&& marks.last() == after.len()
        }
}

/// Scans every applicable rule and returns one group per rule. Rules that do
/// not apply are left out entirely.
pub fn scan<R: CommandRunner>(
    rules: &Vec<Rule>,
    ctx: &Ctx,
    config: &Config,
    whitelist: &Whitelist,
    env: &SafetyEnv,
    host: &Host,
    runner: &mut R,
) -> (r: Vec<Group>)
    ensures
        final(runner).prepared() == old(runner).prepared(),
        scan_found(
            models(rules@),
            groups(r@),
            ctx,
            config,
            whitelist,
            env,
            host,
            old(runner).exchanges(),
            final(runner).exchanges(),
        ),
{
    let ghost all = models(rules@);
    let ghost before = runner.exchanges();
    let ghost start = before.len() as int;
    let ghost mut marks: Seq<int> = seq![start];
    let mut out: Vec<Group> = Vec::new();
    let mut i: usize = 0;
    assert(groups(out@) =~= Seq::empty());
    assert(before.take(start) =~= before);
    while i < rules.len()
        invariant
            i <= rules.len(),
            all == models(rules@),
            start == before.len(),
            start <= runner.exchanges().len(),
            runner.exchanges().take(start) == before,
            marks.len() > 0,
            marks[0] == start,
            marks.last() == runner.exchanges().len(),
            runner.prepared() == old(runner).prepared(),
            scanned(
                applying(all, i as int, ctx, host),
                groups(out@),
                marks,
                ctx,
                config,
                whitelist,
                env,
                host,
                runner.exchanges(),
            ),
        decreases rules.len() - i,
    {
        assert(all[i as int] == rules@[i as int]@);
        if is_applicable(&rules[i].applicable, ctx, host) {
            let ghost log = runner.exchanges();
            let ghost had = out@;
            let ghost old_marks = marks;
            let ghost old_rules = applying(all, i as int, ctx, host);
            let group = scan_rule(&rules[i], ctx, config, whitelist, env, host, runner);
            let ghost more = runner.exchanges();
            proof {
                marks = marks.push(more.len() as int);
            }
            out.push(group);
            proof {
                let new_rules = applying(all, i + 1, ctx, host);
                let list = groups(out@);
                assert(list =~= groups(had).push(group@));
                assert(more.take(more.len() as int) =~= more);
                assert(more.take(start) =~= more.take(log.len() as int).take(start));
                assert forall|k: int| #![trigger list[k]] 0 <= k < new_rules.len() implies {
                    &&& 0 <= marks[k] <= marks[k + 1] <= more.len()
                    &&& detector_asked(
                        new_rules[k].detector,
                        ctx,
                        host,
                        more.take(marks[k + 1]),
                        marks[k],
                    )
                    &&& list[k] == group_of(
                        new_rules[k],
                        detected(
                            new_rules[k],
                            ctx,
                            config,
                            host,
                            more.take(marks[k + 1]),
                            marks[k],
                        ),
                        ctx,
                        whitelist,
                        env,
                        host,
                    )
                } by {
                    if k < old_rules.len() {
                        assert(groups(had)[k] == list[k]);
                        assert(more.take(marks[k + 1]) =~= log.take(marks[k + 1])) by {
                            assert forall|x: int| 0 <= x < marks[k + 1] implies more[x]
                                == log[x] by {
                                assert(more.take(log.len() as int)[x] == more[x]);
                            }
                        }
                    }
                }
            }
        }
        i += 1;
    }
    assert(all.len() == rules.len());
    out
}

/// What a scan offers for deletion may be deleted, and what the whitelist
/// covers cannot be selected.
pub proof fn law_offered_paths_are_deletable_and_whitelist_wins(
    raw: Seq<CandidateModel>,
    n: int,
    allowed: Seq<Seq<char>>,
    tier: Tier,
    whitelist: &Whitelist,
    env: &SafetyEnv,
    host: &Host,
    c: int,
)
    requires
        0 <= n <= raw.len(),
        0 <= c < deletable(raw, n, allowed, tier, whitelist, env, host).len(),
    ensures
        ({
            let offer = deletable(raw, n, allowed, tier, whitelist, env, host)[c];
            &&& offer.path is Some
            &&& verdict(offer.path->Some_0, allowed, tier, env, host) is None
            &&& whitelist.covers(offer.path->Some_0) ==> offer.whitelisted && !offer.selectable
        }),
    decreases n,
{
    if n > 0 {
        let before = deletable(raw, n - 1, allowed, tier, whitelist, env, host);
        if c < before.len() {
            law_offered_paths_are_deletable_and_whitelist_wins(
                raw,
                n - 1,
                allowed,
                tier,
                whitelist,
                env,
                host,
                c,
            );
        }
    }
}

/// Every candidate with a path is either offered or refused with a note.
pub proof fn law_no_candidate_is_dropped_silently(
    raw: Seq<CandidateModel>,
    n: int,
    allowed: Seq<Seq<char>>,
    tier: Tier,
    whitelist: &Whitelist,
    env: &SafetyEnv,
    host: &Host,
)
    requires
        0 <= n <= raw.len(),
        forall|i: int| 0 <= i < n ==> (#[trigger] raw[i]).path is Some,
    ensures
        deletable(raw, n, allowed, tier, whitelist, env, host).len() + refused(
            raw,
            n,
            allowed,
            tier,
            env,
            host,
        ).len() == n,
    decreases n,
{
    if n > 0 {
        law_no_candidate_is_dropped_silently(
            raw,
            n - 1,
            allowed,
            tier,
            whitelist,
            env,
            host,
        );
    }
}

// -------------------------------------------------------------- what is opt-in

/// Whether a finder offers what is Safe to delete or to run.
pub open spec fn finds_safe(finder: Finder) -> bool {
    match finder {
        Finder::CacheApps | Finder::Trash | Finder::PacmanCache => true,
        Finder::Fstrim | Finder::ResetFailed | Finder::FontCache => true,
        Finder::DesktopDb | Finder::Updatedb => true,
        _ => false,
    }
}

proof fn lemma_globs_unticked(
    patterns: Seq<Seq<char>>,
    n: int,
    risk: Risk,
    ctx: &Ctx,
    host: &Host,
)
    requires
        risk != Risk::Safe,
    ensures
        unticked(glob_candidates(patterns, n, risk, ctx, host)),
    decreases n,
{
    if n > 0 {
        lemma_globs_unticked(patterns, n - 1, risk, ctx, host);
    }
}

proof fn lemma_app_caches_unticked(names: Seq<Seq<char>>, n: int, ctx: &Ctx, host: &Host)
    ensures
        unticked(moderate::app_caches(names, n, ctx, host)),
    decreases n,
{
    if n > 0 {
        lemma_app_caches_unticked(names, n - 1, ctx, host);
    }
}

proof fn lemma_images_unticked(lines: Seq<Seq<char>>, n: int)
    ensures
        unticked(moderate::images_in(lines, n)),
        unticked(moderate::containers_in(lines, n)),
    decreases n,
{
    if n > 0 {
        lemma_images_unticked(lines, n - 1);
    }
}

proof fn lemma_revisions_unticked(lines: Seq<Seq<char>>, n: int)
    ensures
        unticked(snap::old_revisions(lines, n)),
    decreases n,
{
    if n > 0 {
        lemma_revisions_unticked(lines, n - 1);
    }
}

proof fn lemma_orphans_unticked(
    tree: Seq<char>,
    names: Seq<Seq<char>>,
    n: int,
    installed: Seq<Seq<char>>,
    ctx: &Ctx,
    days: u32,
    host: &Host,
)
    ensures
        unticked(leftovers::orphans_upto(tree, names, n, installed, ctx, days, host)),
    decreases n,
{
    if n > 0 {
        lemma_orphans_unticked(tree, names, n - 1, installed, ctx, days, host);
    }
}

proof fn lemma_guesses_unticked(
    tree: Seq<char>,
    installed: Seq<Seq<char>>,
    ctx: &Ctx,
    days: u32,
    host: &Host,
)
    ensures
        unticked(leftovers::orphans_in(tree, installed, ctx, days, host)),
{
    if let Some(names) = host.listing(tree) {
        lemma_orphans_unticked(tree, names, names.len() as int, installed, ctx, days, host);
    }
}

proof fn lemma_cleanups_unticked(
    configs: Seq<(Seq<char>, Seq<char>)>,
    n: int,
    log: Seq<Exchange>,
    base: int,
    suffix: Seq<char>,
)
    ensures
        unticked(snapshots::cleanup_candidates(configs, n, log, base, suffix)),
    decreases n,
{
    if n > 0 {
        lemma_cleanups_unticked(configs, n - 1, log, base, suffix);
    }
}

proof fn lemma_config_unticked(
    config: Seq<char>,
    list: Seq<SnapshotModel>,
    n: int,
    protected: Set<nat>,
)
    ensures
        unticked(snapshots::config_candidates(config, list, n, protected)),
    decreases n,
{
    if n > 0 {
        lemma_config_unticked(config, list, n - 1, protected);
    }
}

proof fn lemma_manual_unticked(
    configs: Seq<(Seq<char>, Seq<char>)>,
    n: int,
    log: Seq<Exchange>,
    base: int,
    protected: Set<nat>,
)
    ensures
        unticked(snapshots::manual_candidates(configs, n, log, base, protected)),
    decreases n,
{
    if n > 0 {
        lemma_manual_unticked(configs, n - 1, log, base, protected);
        let name = configs[n - 1].0;
        let at = base + snapshots::valid_count(configs, n - 1);
        if let Ok(list) = snapper::snapshots_reply(log[at].reply, name) {
            lemma_config_unticked(name, list, list.len() as int, protected);
        }
    }
}

proof fn lemma_finder_unticked(
    finder: Finder,
    ctx: &Ctx,
    config: &Config,
    host: &Host,
    log: Seq<Exchange>,
    start: int,
)
    requires
        !finds_safe(finder),
    ensures
        unticked(finder_found(finder, ctx, config, host, log, start)),
{
    match finder {
        Finder::FlatpakAppCaches => {
            let dir = paths::joined(ctx.home@, ".var/app"@);
            let list = match host.listing(dir) {
                Some(names) => moderate::app_caches(names, names.len() as int, ctx, host),
                None => Seq::empty(),
            };
            if let Some(names) = host.listing(dir) {
                lemma_app_caches_unticked(names, names.len() as int, ctx, host);
            }
            order::lemma_by_label_unticked(list);
        },
        Finder::ContainersPrune => {
            if let Ok(out) = log[start].reply {
                let lines = text::lines(out.stdout);
                lemma_images_unticked(lines, lines.len() as int);
            }
            if let Ok(out) = log[start + 1].reply {
                let lines = text::lines(out.stdout);
                lemma_images_unticked(lines, lines.len() as int);
            }
        },
        Finder::OldRevisions => {
            if let Ok(out) = log[start].reply {
                let lines = text::lines(out.stdout);
                lemma_revisions_unticked(lines, lines.len() as int);
            }
        },
        Finder::OrphanConfigs => {
            let known = leftovers::known_names(log, start, flatpak::available(ctx, host));
            let days = config.clean.orphan_min_age_days;
            let a = paths::joined(ctx.home@, ".config"@);
            let b = paths::joined(ctx.home@, ".local/share"@);
            let c = paths::joined(ctx.home@, ".cache"@);
            lemma_guesses_unticked(a, known, ctx, days, host);
            lemma_guesses_unticked(b, known, ctx, days, host);
            lemma_guesses_unticked(c, known, ctx, days, host);
            order::lemma_by_label_unticked(
                leftovers::orphans_in(a, known, ctx, days, host) + leftovers::orphans_in(
                    b,
                    known,
                    ctx,
                    days,
                    host,
                ) + leftovers::orphans_in(c, known, ctx, days, host),
            );
        },
        _ => {},
    }
}

/// Nothing that a rule of `badger clean` or a task of `badger optimize`
/// offers is ticked from the start unless the rule is Safe.
pub proof fn law_only_safe_offers_are_ticked(
    experimental: bool,
    i: int,
    ctx: &Ctx,
    config: &Config,
    whitelist: &Whitelist,
    env: &SafetyEnv,
    host: &Host,
    log: Seq<Exchange>,
    start: int,
)
    requires
        0 <= i < (registry_table(experimental) + optimize::table()).len(),
        (registry_table(experimental) + optimize::table())[i].risk != Risk::Safe,
    ensures
        ({
            let rule = (registry_table(experimental) + optimize::table())[i];
            let found = detected(rule, ctx, config, host, log, start);
            unticked(group_of(rule, found, ctx, whitelist, env, host).candidates)
        }),
{
    let rule = (registry_table(experimental) + optimize::table())[i];
    let found = detected(rule, ctx, config, host, log, start);
    match rule.detector {
        DetectorModel::Globs(patterns) => {
            lemma_globs_unticked(patterns, patterns.len() as int, rule.risk, ctx, host);
        },
        DetectorModel::Fn(finder) => {
            lemma_risks_agree(experimental, i);
            lemma_finder_unticked(finder, ctx, config, host, log, start);
        },
        DetectorModel::FnWithSkips(NotingFinder::SnapperCleanup) => {
            if let Ok(configs) = snapper::configs_reply(log[start].reply) {
                lemma_cleanups_unticked(
                    configs,
                    configs.len() as int,
                    log,
                    start + 1 + snapper::limine_steps(log, start + 1),
                    snapshots::limine_suffix(snapper::limine_state(log, start + 1)),
                );
            }
        },
        DetectorModel::FnWithSkips(NotingFinder::SnapperManual) => {
            let known = snapper::protected(
                snapper::booted(ctx, host),
                snapper::default_reply(log[start].reply),
            );
            let at = start + 1 + snapper::limine_steps(log, start + 1);
            if let Some(protected) = known {
                if let Ok(configs) = snapper::configs_reply(log[at].reply) {
                    lemma_manual_unticked(configs, configs.len() as int, log, at + 1, protected);
                }
            }
        },
    }
    assert(unticked(found.0));
    let allowed = expanded_all(rule.allowed_prefixes, ctx.root@, ctx.home@);
    lemma_deletable_unticked(
        found.0,
        found.0.len() as int,
        allowed,
        tier_of(rule.requires_sudo),
        whitelist,
        env,
        host,
    );
}

proof fn lemma_deletable_unticked(
    raw: Seq<CandidateModel>,
    n: int,
    allowed: Seq<Seq<char>>,
    tier: Tier,
    whitelist: &Whitelist,
    env: &SafetyEnv,
    host: &Host,
)
    requires
        unticked(raw),
        n <= raw.len(),
    ensures
        unticked(deletable(raw, n, allowed, tier, whitelist, env, host)),
    decreases n,
{
    if n > 0 {
        lemma_deletable_unticked(raw, n - 1, allowed, tier, whitelist, env, host);
    }
}

/// A rule that is not Safe finds nothing that is.
proof fn lemma_risks_agree(experimental: bool, i: int)
    requires
        0 <= i < (registry_table(experimental) + optimize::table()).len(),
    ensures
        ({
            let rule = (registry_table(experimental) + optimize::table())[i];
            rule.detector matches DetectorModel::Fn(finder) ==> rule.risk != Risk::Safe
                ==> !finds_safe(finder)
        }),
{
    let t = registry_table(experimental);
    let all = t + optimize::table();
    let n = t.len();
    if i == 0 {
        assert(all[i] == user::table()[0]);
    }
    if i == 1 {
        assert(all[i] == user::table()[1]);
    }
    if i == 2 {
        assert(all[i] == user::table()[2]);
    }
    if i == 3 {
        assert(all[i] == dev::table()[0]);
    }
    if i == 4 {
        assert(all[i] == dev::table()[1]);
    }
    if i == 5 {
        assert(all[i] == dev::table()[2]);
    }
    if i == 6 {
        assert(all[i] == dev::table()[3]);
    }
    if i == 7 {
        assert(all[i] == dev::table()[4]);
    }
    if i == 8 {
        assert(all[i] == command::table()[0]);
    }
    if i == 9 {
        assert(all[i] == command::table()[1]);
    }
    if i == 10 {
        assert(all[i] == command::table()[2]);
    }
    if i == 11 {
        assert(all[i] == command::table()[3]);
    }
    if i == 12 {
        assert(all[i] == command::table()[4]);
    }
    if i == 13 {
        assert(all[i] == moderate::table()[0]);
    }
    if i == 14 {
        assert(all[i] == moderate::table()[1]);
    }
    if i == 15 {
        assert(all[i] == moderate::table()[2]);
    }
    if i == 16 {
        assert(all[i] == moderate::table()[3]);
    }
    if i == 17 {
        assert(all[i] == moderate::table()[4]);
    }
    if i == 18 {
        assert(all[i] == snap::table()[0]);
    }
    if i == 19 {
        assert(all[i] == snapshots::table()[0]);
    }
    if i == 20 {
        assert(all[i] == snapshots::table()[1]);
    }
    if i == 21 && experimental {
        assert(all[i] == leftovers::table()[0]);
    }
    if i >= n {
        assert(all[i] == optimize::table()[i - n]);
    }
}

// ------------------------------------------------------------------------ laws


// ------------------------------------------------------------- what becomes of a find

/// Which find an offer is for.
proof fn lemma_offer_is_for(
    raw: Seq<CandidateModel>,
    n: int,
    allowed: Seq<Seq<char>>,
    tier: Tier,
    whitelist: &Whitelist,
    env: &SafetyEnv,
    host: &Host,
    c: int,
) -> (j: int)
    requires
        0 <= n <= raw.len(),
        0 <= c < deletable(raw, n, allowed, tier, whitelist, env, host).len(),
    ensures
        0 <= j < n,
        raw[j].path is Some,
        verdict(raw[j].path->0, allowed, tier, env, host) is None,
        deletable(raw, n, allowed, tier, whitelist, env, host)[c] == offered(
            raw[j],
            whitelist,
            host,
        ),
    decreases n,
{
    let before = deletable(raw, n - 1, allowed, tier, whitelist, env, host);
    if n > 0 && c < before.len() {
        lemma_offer_is_for(raw, n - 1, allowed, tier, whitelist, env, host, c)
    } else {
        n - 1
    }
}

proof fn lemma_find_is_offered_or_refused(
    raw: Seq<CandidateModel>,
    n: int,
    allowed: Seq<Seq<char>>,
    tier: Tier,
    whitelist: &Whitelist,
    env: &SafetyEnv,
    host: &Host,
    j: int,
)
    requires
        0 <= j < n <= raw.len(),
        raw[j].path is Some,
    ensures
        match verdict(raw[j].path->0, allowed, tier, env, host) {
            None => deletable(raw, n, allowed, tier, whitelist, env, host).contains(
                offered(raw[j], whitelist, host),
            ),
            Some(refusal) => refused(raw, n, allowed, tier, env, host).contains(
                (raw[j].label, refusal_text(refusal)),
            ),
        },
    decreases n,
{
    let had = deletable(raw, n - 1, allowed, tier, whitelist, env, host);
    let list = deletable(raw, n, allowed, tier, whitelist, env, host);
    let knew = refused(raw, n - 1, allowed, tier, env, host);
    let told = refused(raw, n, allowed, tier, env, host);
    if j < n - 1 {
        lemma_find_is_offered_or_refused(raw, n - 1, allowed, tier, whitelist, env, host, j);
    }
    match verdict(raw[j].path->0, allowed, tier, env, host) {
        None => {
            let c = offered(raw[j], whitelist, host);
            if j < n - 1 {
                let k = choose|k: int| 0 <= k < had.len() && had[k] == c;
                assert(list[k] == c);
            } else {
                assert(list[had.len() as int] == c);
            }
        },
        Some(refusal) => {
            let note = (raw[j].label, refusal_text(refusal));
            if j < n - 1 {
                let k = choose|k: int| 0 <= k < knew.len() && knew[k] == note;
                assert(told[k] == note);
            } else {
                assert(told[knew.len() as int] == note);
            }
        },
    }
}

/// What the detector of a deleting rule finds at a path that may be deleted
/// is offered under its label, with the bytes at that path, and can be
/// selected where the detector lets it and the whitelist does not cover it.
/// Anything else is refused under its label, with the reason.
pub proof fn law_each_find_is_offered_or_refused(
    rule: RuleModel,
    found: (Seq<CandidateModel>, Seq<(Seq<char>, Seq<char>)>),
    ctx: &Ctx,
    whitelist: &Whitelist,
    env: &SafetyEnv,
    host: &Host,
    j: int,
    path: Seq<char>,
)
    requires
        rule.action == Action::DeletePaths,
        0 <= j < found.0.len(),
        found.0[j].path == Some(path),
    ensures
        ({
            let g = group_of(rule, found, ctx, whitelist, env, host);
            let allowed = expanded_all(rule.allowed_prefixes, ctx.root@, ctx.home@);
            let tier = if rule.requires_sudo {
                Tier::System
            } else {
                Tier::User
            };
            match verdict(path, allowed, tier, env, host) {
                None => exists|k: int|
                    {
                        &&& 0 <= k < g.candidates.len()
                        &&& (#[trigger] g.candidates[k]).path == Some(path)
                        &&& g.candidates[k].label == found.0[j].label
                        &&& g.candidates[k].selectable == (found.0[j].selectable
                            && !whitelist.covers(path))
                        &&& g.candidates[k].whitelisted == (found.0[j].whitelisted
                            || whitelist.covers(path))
                        &&& host.found(path) is Some ==> g.candidates[k].bytes == host.found(
                            path,
                        )->0.size
                    },
                Some(refusal) => g.skipped.contains(
                    (found.0[j].label, refusal_text(refusal)),
                ),
            }
        }),
{
    let g = group_of(rule, found, ctx, whitelist, env, host);
    let allowed = expanded_all(rule.allowed_prefixes, ctx.root@, ctx.home@);
    let tier = tier_of(rule.requires_sudo);
    let n = found.0.len() as int;
    lemma_find_is_offered_or_refused(found.0, n, allowed, tier, whitelist, env, host, j);
    match verdict(path, allowed, tier, env, host) {
        None => {
            let c = offered(found.0[j], whitelist, host);
            let k = choose|k: int| 0 <= k < g.candidates.len() && g.candidates[k] == c;
            assert(g.candidates[k].path == Some(path));
        },
        Some(refusal) => {
            let note = (found.0[j].label, refusal_text(refusal));
            let told = refused(found.0, n, allowed, tier, env, host);
            let k = choose|k: int| 0 <= k < told.len() && told[k] == note;
            assert(g.skipped[found.1.len() + k] == note);
        },
    }
}

/// Only what the detector of a deleting rule finds is offered, and nothing
/// that may not be deleted.
pub proof fn law_each_offer_is_of_a_find(
    rule: RuleModel,
    found: (Seq<CandidateModel>, Seq<(Seq<char>, Seq<char>)>),
    ctx: &Ctx,
    whitelist: &Whitelist,
    env: &SafetyEnv,
    host: &Host,
    k: int,
)
    requires
        rule.action == Action::DeletePaths,
        0 <= k < group_of(rule, found, ctx, whitelist, env, host).candidates.len(),
    ensures
        ({
            let c = group_of(rule, found, ctx, whitelist, env, host).candidates[k];
            let allowed = expanded_all(rule.allowed_prefixes, ctx.root@, ctx.home@);
            let tier = if rule.requires_sudo {
                Tier::System
            } else {
                Tier::User
            };
            &&& c.path is Some
            &&& verdict(c.path->0, allowed, tier, env, host) is None
            &&& exists|j: int|
                {
                    &&& 0 <= j < found.0.len()
                    &&& (#[trigger] found.0[j]).path == c.path
                    &&& found.0[j].label == c.label
                    &&& c.selectable == (found.0[j].selectable && !whitelist.covers(c.path->0))
                }
        }),
{
    let allowed = expanded_all(rule.allowed_prefixes, ctx.root@, ctx.home@);
    let tier = tier_of(rule.requires_sudo);
    let n = found.0.len() as int;
    let j = lemma_offer_is_for(found.0, n, allowed, tier, whitelist, env, host, k);
    assert(found.0[j].path is Some);
}

/// What a rule that runs a command finds is all shown, in order, and with
/// the bytes where there is a path.
pub proof fn law_finds_of_a_command_are_all_shown(
    rule: RuleModel,
    found: (Seq<CandidateModel>, Seq<(Seq<char>, Seq<char>)>),
    ctx: &Ctx,
    whitelist: &Whitelist,
    env: &SafetyEnv,
    host: &Host,
    k: int,
)
    requires
        rule.action != Action::DeletePaths,
        0 <= k < found.0.len(),
    ensures
        ({
            let g = group_of(rule, found, ctx, whitelist, env, host);
            let c = g.candidates[k];
            &&& g.candidates.len() == found.0.len()
            &&& g.skipped == found.1
            &&& c.path == found.0[k].path
            &&& c.label == found.0[k].label
            &&& c.selectable == found.0[k].selectable
            &&& c.whitelisted == found.0[k].whitelisted
            &&& c.path is None ==> c.bytes == found.0[k].bytes
            &&& c.path is Some && host.found(c.path->0) is Some ==> c.bytes == host.found(
                c.path->0,
            )->0.size
        }),
{
}

/// A scan offers the cache of an application for selection where no process
/// outside a sandbox is named after it and the whitelist does not cover it,
/// and only there.
pub proof fn law_a_scan_spares_running_apps(
    rules: Seq<RuleModel>,
    list: Seq<GroupModel>,
    ctx: &Ctx,
    config: &Config,
    whitelist: &Whitelist,
    env: &SafetyEnv,
    host: &Host,
    before: Seq<Exchange>,
    after: Seq<Exchange>,
    g: int,
    k: int,
    name: Seq<char>,
)
    requires
        scan_found(rules, list, ctx, config, whitelist, env, host, before, after),
        user::written_dir(ctx.home@),
        host.listing(ctx.home@ + "/.cache"@) is Some,
        user::entry_names(host.listing(ctx.home@ + "/.cache"@)->0),
        0 <= g < applying(rules, rules.len() as int, ctx, host).len(),
        applying(rules, rules.len() as int, ctx, host)[g] == user::table()[0],
        0 <= k < list[g].candidates.len(),
        list[g].candidates[k].path == Some(ctx.home@ + "/.cache/"@ + name),
    ensures
        ({
            let c = list[g].candidates[k];
            let runs = exists|i: int|
                0 <= i < host.processes@.len() && (#[trigger] host.processes@[i])@ == name;
            let covered = whitelist.covers(ctx.home@ + "/.cache/"@ + name);
            &&& list[g].rule_id == "user.cache_apps"@
            &&& !ctx.sandboxed && runs ==> !c.selectable
            &&& ctx.sandboxed || !runs ==> c.selectable == !covered
        }),
{
    let all = applying(rules, rules.len() as int, ctx, host);
    let rule = all[g];
    let (log, start) = lemma_group_in_scan(
        rules,
        list,
        ctx,
        config,
        whitelist,
        env,
        host,
        before,
        after,
        g,
    );
    lemma_cache_apps_group(rule, ctx, config, whitelist, env, host, log, start, k, name);
}

/// Each group of a scan is that of its rule.
proof fn lemma_group_in_scan(
    rules: Seq<RuleModel>,
    list: Seq<GroupModel>,
    ctx: &Ctx,
    config: &Config,
    whitelist: &Whitelist,
    env: &SafetyEnv,
    host: &Host,
    before: Seq<Exchange>,
    after: Seq<Exchange>,
    g: int,
) -> (at: (Seq<Exchange>, int))
    requires
        scan_found(rules, list, ctx, config, whitelist, env, host, before, after),
        0 <= g < applying(rules, rules.len() as int, ctx, host).len(),
    ensures
        list.len() == applying(rules, rules.len() as int, ctx, host).len(),
        list[g] == group_of(
            applying(rules, rules.len() as int, ctx, host)[g],
            detected(
                applying(rules, rules.len() as int, ctx, host)[g],
                ctx,
                config,
                host,
                at.0,
                at.1,
            ),
            ctx,
            whitelist,
            env,
            host,
        ),
{
    let all = applying(rules, rules.len() as int, ctx, host);
    let marks = choose|marks: Seq<int>|
        {
            &&& #[trigger] scanned(
                all,
                list,
                marks,
                ctx,
                config,
                whitelist,
                env,
                host,
                after,
            )
            &&& marks[0] == before.len()
            &&& marks.last() == after.len()
        };
    assert(list[g] == list[g]);
    (after.take(marks[g + 1]), marks[g])
}

proof fn lemma_cache_apps_group(
    rule: RuleModel,
    ctx: &Ctx,
    config: &Config,
    whitelist: &Whitelist,
    env: &SafetyEnv,
    host: &Host,
    log: Seq<Exchange>,
    start: int,
    k: int,
    name: Seq<char>,
)
    requires
        rule.detector == DetectorModel::Fn(Finder::CacheApps),
        rule.action == Action::DeletePaths,
        user::written_dir(ctx.home@),
        host.listing(ctx.home@ + "/.cache"@) is Some,
        user::entry_names(host.listing(ctx.home@ + "/.cache"@)->0),
        ({
            let found = detected(rule, ctx, config, host, log, start);
            let g = group_of(rule, found, ctx, whitelist, env, host);
            &&& 0 <= k < g.candidates.len()
            &&& g.candidates[k].path == Some(ctx.home@ + "/.cache/"@ + name)
        }),
    ensures
        ({
            let found = detected(rule, ctx, config, host, log, start);
            let c = group_of(rule, found, ctx, whitelist, env, host).candidates[k];
            let covered = whitelist.covers(ctx.home@ + "/.cache/"@ + name);
            &&& user::in_use(name, ctx, host) ==> !c.selectable
            &&& !user::in_use(name, ctx, host) ==> c.selectable == !covered
        }),
{
    let found = detected(rule, ctx, config, host, log, start);
    let names = host.listing(ctx.home@ + "/.cache"@)->0;
    assert(paths::joined(ctx.home@, ".cache"@) == ctx.home@ + "/.cache"@) by {
        reveal_strlit(".cache");
        reveal_strlit("/.cache");
        reveal_strlit("/");
        assert("/.cache"@ =~= "/"@ + ".cache"@);
        assert(paths::joined(ctx.home@, ".cache"@) =~= ctx.home@ + "/.cache"@);
    }
    assert(found.0 == user::cache_apps(names, names.len() as int, ctx, host));
    law_each_offer_is_of_a_find(rule, found, ctx, whitelist, env, host, k);
    let c = group_of(rule, found, ctx, whitelist, env, host).candidates[k];
    let j = choose|j: int|
        {
            &&& 0 <= j < found.0.len()
            &&& (#[trigger] found.0[j]).path == c.path
            &&& found.0[j].label == c.label
            &&& c.selectable == (found.0[j].selectable && !whitelist.covers(c.path->0))
        };
    user::law_running_apps_keep_their_caches(names, names.len() as int, ctx, host);
    let m = choose|m: int|
        0 <= m < names.len() && !user::has_own_rule(#[trigger] names[m]) && user::offers_cache(
            found.0[j],
            names[m],
            ctx,
            host,
        );
    let lead = ctx.home@ + "/.cache/"@;
    assert((lead + name).skip(lead.len() as int) =~= name);
    assert((lead + names[m]).skip(lead.len() as int) =~= names[m]);
}

/// A rule makes sense where its condition holds: always, where its command is
/// there, where any of its commands is, or where its path leads somewhere;
/// snapshots where snapper is there and the settings let it be used.
pub proof fn law_rules_apply_where_they_can(
    name: Seq<char>,
    names: Seq<Seq<char>>,
    path: Seq<char>,
    ctx: &Ctx,
    host: &Host,
)
    ensures
        applies(ApplicabilityModel::Always, ctx, host),
        applies(ApplicabilityModel::CommandExists(name), ctx, host) <==> host::available(
            name,
            ctx,
            host,
        ),
        applies(ApplicabilityModel::CommandExistsAny(names), ctx, host) <==> exists|i: int|
            0 <= i < names.len() && host::available(#[trigger] names[i], ctx, host),
        applies(ApplicabilityModel::PathExists(path), ctx, host) <==> host.real_path(
            expanded(path, ctx.root@, ctx.home@),
        ) is Some,
        applies(ApplicabilityModel::Fn(Condition::Snapper), ctx, host) <==> host::available(
            "snapper"@,
            ctx,
            host,
        ) && ctx.config.snapshots.manage,
{
}

proof fn lemma_applying(rules: Seq<RuleModel>, n: int, ctx: &Ctx, host: &Host, i: int)
    requires
        0 <= i < n <= rules.len(),
        applies(rules[i].applicable, ctx, host),
    ensures
        applying(rules, n, ctx, host).contains(rules[i]),
    decreases n,
{
    let before = applying(rules, n - 1, ctx, host);
    let now = applying(rules, n, ctx, host);
    if i < n - 1 {
        lemma_applying(rules, n - 1, ctx, host, i);
        let k = choose|k: int| 0 <= k < before.len() && before[k] == rules[i];
        assert(now[k] == rules[i]);
    } else {
        assert(now[before.len() as int] == rules[i]);
    }
}

/// A scan has a group for every rule that applies, under its id, title and
/// risk.
pub proof fn law_every_rule_that_applies_is_scanned(
    rules: Seq<RuleModel>,
    list: Seq<GroupModel>,
    ctx: &Ctx,
    config: &Config,
    whitelist: &Whitelist,
    env: &SafetyEnv,
    host: &Host,
    before: Seq<Exchange>,
    after: Seq<Exchange>,
    i: int,
)
    requires
        scan_found(rules, list, ctx, config, whitelist, env, host, before, after),
        0 <= i < rules.len(),
        applies(rules[i].applicable, ctx, host),
    ensures
        exists|g: int|
            {
                &&& 0 <= g < list.len()
                &&& (#[trigger] list[g]).rule_id == rules[i].id
                &&& list[g].title == rules[i].title
                &&& list[g].risk == rules[i].risk
                &&& list[g].requires_sudo == rules[i].requires_sudo
            },
{
    let all = applying(rules, rules.len() as int, ctx, host);
    lemma_applying(rules, rules.len() as int, ctx, host, i);
    let g = choose|g: int| 0 <= g < all.len() && all[g] == rules[i];
    let at = lemma_group_in_scan(
        rules,
        list,
        ctx,
        config,
        whitelist,
        env,
        host,
        before,
        after,
        g,
    );
    assert(list[g].rule_id == rules[i].id);
}

proof fn lemma_hits(dir: Seq<char>, names: Seq<Seq<char>>, n: int, pattern: Seq<char>, p: Seq<char>)
    requires
        0 <= n <= names.len(),
    ensures
        hits(dir, names, n, pattern).contains(p) <==> exists|i: int|
            0 <= i < n && glob_matches(pattern, #[trigger] names[i]) && p == paths::joined(
                dir,
                names[i],
            ),
    decreases n,
{
    if n > 0 {
        lemma_hits(dir, names, n - 1, pattern, p);
        let before = hits(dir, names, n - 1, pattern);
        let now = hits(dir, names, n, pattern);
        let name = names[n - 1];
        let one = seq![pattern];
        assert(any_matches(one, name) <==> glob_matches(pattern, name)) by {
            assert(one[0] == pattern);
        }
        if before.contains(p) {
            let k = choose|k: int| 0 <= k < before.len() && before[k] == p;
            assert(now[k] == p);
            let i = choose|i: int|
                0 <= i < n - 1 && glob_matches(pattern, #[trigger] names[i]) && p == paths::joined(
                    dir,
                    names[i],
                );
            assert(glob_matches(pattern, names[i]));
        }
        if glob_matches(pattern, name) && p == paths::joined(dir, name) {
            assert(now[before.len() as int] == p);
        }
        if now.contains(p) && !before.contains(p) {
            let k = choose|k: int| 0 <= k < now.len() && now[k] == p;
            if k < before.len() {
                assert(before[k] == p);
            }
            assert(glob_matches(pattern, names[n - 1]));
        }
    }
}

/// A path without a star stands for itself, where it is there. One with a
/// star stands for what its last part matches in its directory.
pub proof fn law_patterns_find_what_is_there(
    dir_text: Seq<char>,
    pattern: Seq<char>,
    ctx: &Ctx,
    host: &Host,
    p: Seq<char>,
)
    requires
        !pattern.contains('/'),
        pattern.contains('*'),
        glob_error(pattern) is None,
        set_error(seq![pattern]) is None,
        host.listing(expanded(dir_text, ctx.root@, ctx.home@)) is Some,
    ensures
        ({
            let dir = expanded(dir_text, ctx.root@, ctx.home@);
            let names = host.listing(dir)->0;
            glob_paths(dir_text + "/"@ + pattern, ctx, host).contains(p) <==> exists|i: int|
                0 <= i < names.len() && glob_matches(pattern, #[trigger] names[i]) && p
                    == paths::joined(dir, names[i])
        }),
{
    reveal_strlit("/");
    reveal_strlit("*");
    let s = dir_text + "/"@ + pattern;
    let i = choose|i: int| 0 <= i < pattern.len() && pattern[i] == '*';
    let at = dir_text.len() + 1 + i;
    assert(s.subrange(at, at + 1) =~= "*"@);
    assert(text::at(s, "*"@, at));
    assert(text::contains(s, "*"@));
    text::law_last_halves_at_the_last(dir_text, '/', pattern);
    assert("/"@ =~= seq!['/']);
    assert(s =~= dir_text + seq!['/'] + pattern);
    let dir = expanded(dir_text, ctx.root@, ctx.home@);
    let names = host.listing(dir)->0;
    lemma_hits(dir, names, names.len() as int, pattern, p);
    order::lemma_sorted_holds(
        hits(dir, names, names.len() as int, pattern),
        |p: Seq<char>| order::path_key(p),
        p,
    );
}

/// A path without a star stands for itself, where it is there.
pub proof fn law_plain_paths_find_themselves(path: Seq<char>, ctx: &Ctx, host: &Host)
    requires
        !path.contains('*'),
    ensures
        ({
            let p = expanded(path, ctx.root@, ctx.home@);
            &&& host.found(p) is Some ==> glob_paths(path, ctx, host) == seq![p]
            &&& host.found(p) is None ==> glob_paths(path, ctx, host).len() == 0
        }),
{
    reveal_strlit("*");
    if text::contains(path, "*"@) {
        let k = choose|k: int| text::at(path, "*"@, k);
        assert(path.subrange(k, k + 1)[0] == path[k]);
        assert("*"@[0] == '*');
        assert(path.contains(path[k]));
    }
}

/// Every path a pattern finds is a candidate, selected where the rule is
/// Safe.
pub proof fn law_every_match_is_a_candidate(
    patterns: Seq<Seq<char>>,
    n: int,
    risk: Risk,
    ctx: &Ctx,
    host: &Host,
    i: int,
    k: int,
)
    requires
        0 <= i < n <= patterns.len(),
        0 <= k < glob_paths(patterns[i], ctx, host).len(),
    ensures
        ({
            let list = glob_candidates(patterns, n, risk, ctx, host);
            let path = glob_paths(patterns[i], ctx, host)[k];
            exists|m: int|
                {
                    &&& 0 <= m < list.len()
                    &&& (#[trigger] list[m]).path == Some(path)
                    &&& list[m].label == labels::shown(path, ctx.root@, ctx.home@)
                    &&& list[m].selectable <==> risk == Risk::Safe
                }
        }),
    decreases n,
{
    let before = glob_candidates(patterns, n - 1, risk, ctx, host);
    let list = glob_candidates(patterns, n, risk, ctx, host);
    let path = glob_paths(patterns[i], ctx, host)[k];
    if i < n - 1 {
        law_every_match_is_a_candidate(patterns, n - 1, risk, ctx, host, i, k);
        let m = choose|m: int|
            {
                &&& 0 <= m < before.len()
                &&& (#[trigger] before[m]).path == Some(path)
                &&& before[m].label == labels::shown(path, ctx.root@, ctx.home@)
                &&& before[m].selectable <==> risk == Risk::Safe
            };
        assert(list[m] == before[m]);
    } else {
        let more = path_candidates(glob_paths(patterns[i], ctx, host), risk, ctx);
        assert(list[before.len() + k] == more[k]);
    }
}

} // verus!

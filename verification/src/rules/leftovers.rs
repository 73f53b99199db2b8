//! EXPERIMENTAL: `leftovers.orphan_configs` guesses at config/data/cache
//! directories left behind by an app that has since been uninstalled. There
//! is no reliable way to prove that a directory belongs to nothing, so every
//! one of its conditions fails closed: any doubt keeps the directory. Only
//! reachable via `badger clean --experimental`.

use vstd::prelude::*;

use crate::config::Config;
use crate::ctx::Ctx;
use crate::host::{Entry, Host, Kind};
use crate::item::{candidates, fresh, Candidate, CandidateModel, Risk};
use crate::labels;
use crate::labels::display_label;
use crate::order;
use crate::paths;
use crate::pkg::{packages, PackageModel};
use crate::pkg::flatpak;
use crate::pkg::recommend::{last_segment, last_segment_of};
use crate::rules::{
    models, strs3, Action, Applicability, ApplicabilityModel, Detector, DetectorModel, Finder,
    Rule, RuleModel,
};
use crate::runner::{CommandRunner, Exchange, Reply};
use crate::text;
use crate::text::{chars_of, concat2, list2};

verus! {

broadcast use vstd::seq::group_seq_axioms;

pub const ORPHAN_NOTES: &'static str =
    "Directories under ~/.config, ~/.local/share, and ~/.cache that look like they belong to no installed package. This detection is a heuristic and can misidentify — review every item before deleting. Only offered with --experimental.";

pub open spec fn table() -> Seq<RuleModel> {
    seq![
        (RuleModel {
            id: "leftovers.orphan_configs"@,
            title: "Orphaned app leftovers (experimental)"@,
            risk: Risk::Risky,
            requires_sudo: false,
            applicable: ApplicabilityModel::CommandExists("pacman"@),
            allowed_prefixes: seq!["~/.config"@, "~/.local/share"@, "~/.cache"@],
            detector: DetectorModel::Fn(Finder::OrphanConfigs),
            action: Action::DeletePaths,
            notes: ORPHAN_NOTES@,
        }),
    ]
}

/// The rule never requires root: a guess must not gain root's trust.
pub fn rules() -> (r: Vec<Rule>)
    ensures
        models(r@) == table(),
{
    let r = vec![
        Rule {
            id: "leftovers.orphan_configs",
            title: "Orphaned app leftovers (experimental)",
            risk: Risk::Risky,
            requires_sudo: false,
            applicable: Applicability::CommandExists("pacman"),
            allowed_prefixes: strs3("~/.config", "~/.local/share", "~/.cache"),
            detector: Detector::Fn(Finder::OrphanConfigs),
            action: Action::DeletePaths,
            notes: ORPHAN_NOTES,
        },
    ];
    assert(models(r@) =~= table());
    r
}

// ----------------------------------------------------------------------- names

/// Where the points that `s` starts with end.
pub open spec fn dots_end(s: Seq<char>, from: int) -> int
    decreases s.len() - from,
{
    if from < 0 || from >= s.len() || s[from] != '.' {
        from
    } else {
        dots_end(s, from + 1)
    }
}

/// A name as it is compared: in lower case, without the points it starts
/// with.
pub open spec fn plain_name(name: Seq<char>) -> Seq<char> {
    text::lowercase(name.skip(dots_end(name, 0)))
}

pub fn normalize(name: &str) -> (r: String)
    ensures
        r@ == plain_name(name@),
{
    let v = chars_of(name);
    let mut i: usize = 0;
    while i < v.len() && v[i] == '.'
        invariant
            i <= v.len(),
            dots_end(v@, 0) == dots_end(v@, i as int),
        decreases v.len() - i,
    {
        i += 1;
    }
    let rest = text::piece(&v, i, v.len());
    assert(rest@ =~= name@.skip(i as int));
    rest.as_str().to_lowercase()
}

/// Whether two names are of the same app: equal, or one within the other. A
/// name shorter than three characters is not looked for within another, or `bc`
/// would own every directory with those letters.
pub open spec fn same_app(p: Seq<char>, name: Seq<char>) -> bool {
    p == name || (p.len() >= 3 && name.len() >= 3 && (text::contains(p, name) || text::contains(
        name,
        p,
    )))
}

fn is_short(name: &str) -> (r: bool)
    ensures
        r == (name@.len() < 3),
{
    text::chars_of(name).len() < 3
}

pub fn names_match(p: &str, name: &str) -> (r: bool)
    ensures
        r == same_app(p@, name@),
{
    if text::same(p, name) {
        return true;
    }
    !is_short(p) && !is_short(name) && (text::contains_text(p, name) || text::contains_text(
        name,
        p,
    ))
}

pub open spec fn owned(installed: Seq<Seq<char>>, name: Seq<char>) -> bool {
    exists|i: int| 0 <= i < installed.len() && same_app(#[trigger] installed[i], name)
}

pub fn package_matches(installed: &Vec<String>, name: &str) -> (r: bool)
    ensures
        r == owned(text::texts(installed@), name@),
{
    let ghost all = text::texts(installed@);
    let mut i: usize = 0;
    while i < installed.len()
        invariant
            i <= installed.len(),
            all == text::texts(installed@),
            forall|k: int| 0 <= k < i ==> !same_app(#[trigger] all[k], name@),
        decreases installed.len() - i,
    {
        assert(all[i as int] == installed@[i as int]@);
        if names_match(installed[i].as_str(), name) {
            return true;
        }
        i += 1;
    }
    false
}

// ---------------------------------------------------------- installed packages

pub open spec fn installed_argv() -> Seq<Seq<char>> {
    seq!["pacman"@, "-Qq"@]
}

/// The names among the first `n` lines, in lower case.
pub open spec fn names_upto(lines: Seq<Seq<char>>, n: int) -> Seq<Seq<char>>
    decreases n,
{
    if n <= 0 {
        Seq::empty()
    } else {
        let name = text::lowercase(text::trim(lines[n - 1]));
        if name.len() == 0 {
            names_upto(lines, n - 1)
        } else {
            names_upto(lines, n - 1).push(name)
        }
    }
}

pub open spec fn names_in(stdout: Seq<char>) -> Seq<Seq<char>> {
    names_upto(text::lines(stdout), text::lines(stdout).len() as int)
}

/// What the reply to `pacman -Qq` comes to. A command that cannot be run,
/// fails, or names nothing is no evidence at all: every real system has
/// packages.
pub open spec fn installed_reply(reply: Reply) -> Option<Seq<Seq<char>>> {
    match reply {
        Ok(out) => if out.success && names_in(out.stdout).len() > 0 {
            Some(names_in(out.stdout))
        } else {
            None
        },
        Err(_) => None,
    }
}

fn parse_names(stdout: &str) -> (r: Vec<String>)
    ensures
        text::texts(r@) == names_in(stdout@),
{
    let list = text::split_lines(stdout);
    let ghost all = text::texts(list@);
    let mut out: Vec<String> = Vec::new();
    let mut i: usize = 0;
    assert(text::texts(out@) =~= Seq::empty());
    while i < list.len()
        invariant
            i <= list.len(),
            all == text::texts(list@),
            text::texts(out@) == names_upto(all, i as int),
        decreases list.len() - i,
    {
        assert(all[i as int] == list@[i as int]@);
        let line = text::trimmed(list[i].as_str());
        let name = line.as_str().to_lowercase();
        let ghost had = out@;
        if !name.as_str().is_empty() {
            out.push(name);
            assert(text::texts(out@) =~= text::texts(had).push(name@));
        }
        i += 1;
    }
    out
}

pub open spec fn opt_texts(o: Option<Vec<String>>) -> Option<Seq<Seq<char>>> {
    match o {
        Some(v) => Some(text::texts(v@)),
        None => None,
    }
}

pub fn installed_pacman_names<R: CommandRunner>(runner: &mut R) -> (r: Option<Vec<String>>)
    ensures
        final(runner).prepared() == old(runner).prepared(),
        crate::snapper::asked(
            old(runner).exchanges(),
            final(runner).exchanges(),
            installed_argv(),
        ),
        opt_texts(r) == installed_reply(final(runner).exchanges().last().reply),
{
    let argv = list2("pacman", "-Qq");
    let reply = runner.run(&argv);
    assert(runner.exchanges().drop_last() =~= old(runner).exchanges());
    match reply {
        Ok(out) => {
            let names = parse_names(out.stdout.as_str());
            assert(text::texts(names@).len() == names.len());
            if out.success && names.len() > 0 {
                Some(names)
            } else {
                None
            }
        },
        Err(_) => None,
    }
}

/// The names that the first `n` apps go by: the last segment of the id, and
/// the whole of it.
pub open spec fn app_names(apps: Seq<PackageModel>, n: int) -> Seq<Seq<char>>
    decreases n,
{
    if n <= 0 {
        Seq::empty()
    } else {
        let id = text::lowercase(apps[n - 1].id);
        app_names(apps, n - 1).push(last_segment(id)).push(id)
    }
}

/// The names of the installed flatpak apps. Flatpak being absent is no
/// failure.
pub fn installed_flatpak_names<R: CommandRunner>(ctx: &Ctx, host: &Host, runner: &mut R) -> (r: Vec<
    String,
>)
    ensures
        final(runner).prepared() == old(runner).prepared(),
        ({
            let log = final(runner).exchanges();
            if flatpak::available(ctx, host) {
                let apps = flatpak::list_reply(log.last().reply);
                &&& crate::snapper::asked(old(runner).exchanges(), log, flatpak::list_argv())
                &&& text::texts(r@) == app_names(apps, apps.len() as int)
            } else {
                &&& log == old(runner).exchanges()
                &&& r@.len() == 0
            }
        }),
{
    let mut out: Vec<String> = Vec::new();
    assert(text::texts(out@) =~= Seq::empty());
    if !flatpak::is_available(ctx, host) {
        return out;
    }
    let apps = flatpak::list(runner);
    let ghost all = packages(apps@);
    let mut i: usize = 0;
    assert(all.len() == apps.len());
    while i < apps.len()
        invariant
            i <= apps.len(),
            all == packages(apps@),
            text::texts(out@) == app_names(all, i as int),
        decreases apps.len() - i,
    {
        assert(all[i as int] == apps@[i as int]@);
        let id = apps[i].id.as_str().to_lowercase();
        let ghost had = out@;
        out.push(last_segment_of(id.as_str()));
        out.push(id);
        assert(text::texts(out@) =~= text::texts(had).push(last_segment(id@)).push(id@));
        i += 1;
    }
    out
}

// ------------------------------------------------------------------- launchers

/// Whether an `Exec=` or `Name=` line speaks of `name`.
pub open spec fn mentions(line: Seq<char>, name: Seq<char>) -> bool {
    match text::after_prefix(line, "Exec="@) {
        Some(value) => text::contains(text::lowercase(value), name),
        None => match text::after_prefix(line, "Name="@) {
            Some(value) => text::contains(text::lowercase(value), name),
            None => false,
        },
    }
}

pub open spec fn file_mentions(contents: Seq<char>, name: Seq<char>) -> bool {
    exists|i: int|
        0 <= i < text::lines(contents).len() && mentions(
            #[trigger] text::lines(contents)[i],
            name,
        )
}

/// Whether a readable `.desktop` file in `dir` speaks of `name`.
pub open spec fn entry_mentions(
    dir: Seq<char>,
    entry: Seq<char>,
    name: Seq<char>,
    host: &Host,
) -> bool {
    paths::extension(entry) == Some("desktop"@) && (match host.contents(
        paths::joined(dir, entry),
    ) {
        Some(contents) => file_mentions(contents, name),
        None => false,
    })
}

pub open spec fn dir_mentions(dir: Seq<char>, name: Seq<char>, host: &Host) -> bool {
    match host.listing(dir) {
        Some(entries) => exists|i: int|
            0 <= i < entries.len() && entry_mentions(dir, #[trigger] entries[i], name, host),
        None => false,
    }
}

/// Whether a launcher speaks of `name`. A name shorter than three characters
/// is too ambiguous to look for and counts as spoken of.
pub open spec fn referenced(name: Seq<char>, ctx: &Ctx, host: &Host) -> bool {
    ||| name.len() < 3
    ||| dir_mentions(paths::joined(ctx.home@, ".local/share/applications"@), name, host)
    ||| dir_mentions(paths::joined(ctx.root@, "usr/share/applications"@), name, host)
}

fn line_mentions(line: &str, name: &str) -> (r: bool)
    ensures
        r == mentions(line@, name@),
{
    let value = match text::cut_prefix(line, "Exec=") {
        Some(value) => Some(value),
        None => text::cut_prefix(line, "Name="),
    };
    match value {
        Some(value) => {
            let lower = value.as_str().to_lowercase();
            text::contains_text(lower.as_str(), name)
        },
        None => false,
    }
}

fn text_mentions(contents: &str, name: &str) -> (r: bool)
    ensures
        r == file_mentions(contents@, name@),
{
    let list = text::split_lines(contents);
    let ghost all = text::texts(list@);
    let mut i: usize = 0;
    assert(all.len() == list.len());
    while i < list.len()
        invariant
            i <= list.len(),
            all == text::texts(list@),
            all == text::lines(contents@),
            forall|k: int| 0 <= k < i ==> !mentions(#[trigger] all[k], name@),
        decreases list.len() - i,
    {
        assert(all[i as int] == list@[i as int]@);
        if line_mentions(list[i].as_str(), name) {
            return true;
        }
        i += 1;
    }
    false
}

fn launchers_mention(dir: &str, name: &str, host: &Host) -> (r: bool)
    ensures
        r == dir_mentions(dir@, name@, host),
{
    if let Some(entries) = host.list(dir) {
        let ghost all = text::texts(entries@);
        let mut i: usize = 0;
        assert(all.len() == entries.len());
        while i < entries.len()
            invariant
                i <= entries.len() == all.len(),
                all == text::texts(entries@),
                host.listing(dir@) == Some(all),
                forall|k: int|
                    0 <= k < i ==> !entry_mentions(dir@, #[trigger] all[k], name@, host),
            decreases entries.len() - i,
        {
            assert(all[i as int] == entries@[i as int]@);
            let is_desktop = match paths::extension_of(entries[i].as_str()) {
                Some(ext) => text::same(ext.as_str(), "desktop"),
                None => false,
            };
            assert(is_desktop == (paths::extension(all[i as int]) == Some("desktop"@)));
            if is_desktop {
                let path = paths::join(dir, entries[i].as_str());
                if let Some(contents) = host.read(path.as_str()) {
                    if text_mentions(contents.as_str(), name) {
                        proof {
                            let found = host.listing(dir@)->Some_0;
                            assert(entry_mentions(dir@, found[i as int], name@, host));
                        }
                        return true;
                    }
                }
            }
            i += 1;
        }
    }
    false
}

/// The two directories of launchers that are looked through.
pub fn desktop_dirs(ctx: &Ctx) -> (r: (String, String))
    ensures
        r.0@ == paths::joined(ctx.home@, ".local/share/applications"@),
        r.1@ == paths::joined(ctx.root@, "usr/share/applications"@),
{
    (
        paths::join(ctx.home.as_str(), ".local/share/applications"),
        paths::join(ctx.root.as_str(), "usr/share/applications"),
    )
}

pub fn referenced_in_desktop_files(name: &str, ctx: &Ctx, host: &Host) -> (r: bool)
    ensures
        r == referenced(name@, ctx, host),
{
    if is_short(name) {
        return true;
    }
    let (a, b) = desktop_dirs(ctx);
    launchers_mention(a.as_str(), name, host) || launchers_mention(b.as_str(), name, host)
}

// ------------------------------------------------------------------- keep list

/// Shared directories that no single package owns.
pub open spec fn keep_list() -> Seq<Seq<char>> {
    seq!["gtk-2.0"@, "gtk-3.0"@, "gtk-4.0"@, "dconf"@, "pulse"@, "systemd"@, "fontconfig"@]
        + seq!["autostart"@, "applications"@, "icons"@, "themes"@, "fonts"@, "mime"@, "nvim"@]
        + seq!["trash"@, "badger"@, "pipewire"@, "wireplumber"@]
}

/// Hidden directories, the trash, and the shared ones are never candidates.
pub open spec fn kept(raw: Seq<char>, name: Seq<char>) -> bool {
    ||| text::starts_with(raw, "."@)
    ||| raw == "Trash"@
    ||| keep_list().contains(name)
    ||| text::starts_with(name, "kde"@)
    ||| text::starts_with(name, "plasma"@)
}

fn keep_names() -> (r: Vec<String>)
    ensures
        text::texts(r@) == keep_list(),
{
    let mut out = text::list5("gtk-2.0", "gtk-3.0", "gtk-4.0", "dconf", "pulse");
    let mut b = text::list5("systemd", "fontconfig", "autostart", "applications", "icons");
    let mut c = text::list5("themes", "fonts", "mime", "nvim", "trash");
    let mut d = text::list3("badger", "pipewire", "wireplumber");
    let ghost w = out@;
    let ghost x = b@;
    let ghost y = c@;
    let ghost z = d@;
    out.append(&mut b);
    out.append(&mut c);
    out.append(&mut d);
    assert(text::texts(out@) =~= text::texts(w) + text::texts(x) + text::texts(y) + text::texts(
        z,
    ));
    assert(text::texts(out@) =~= keep_list());
    out
}

pub fn is_kept(raw: &str, name: &str) -> (r: bool)
    ensures
        r == kept(raw@, name@),
{
    text::has_prefix(raw, ".") || text::same(raw, "Trash") || text::holds(&keep_names(), name)
        || text::has_prefix(name, "kde") || text::has_prefix(name, "plasma")
}

// ------------------------------------------------------------------- in use

/// Whether a process works in or runs from below `dir`. Never in a sandbox;
/// where the processes cannot be listed, everything counts as in use.
pub open spec fn in_use(dir: Seq<char>, ctx: &Ctx, host: &Host) -> bool {
    !ctx.sandboxed && (match host.in_use {
        None => true,
        Some(list) => exists|i: int|
            0 <= i < list@.len() && paths::under((#[trigger] list@[i])@, dir),
    })
}

pub fn process_using_path(dir: &str, ctx: &Ctx, host: &Host) -> (r: bool)
    ensures
        r == in_use(dir@, ctx, host),
{
    if ctx.sandboxed {
        return false;
    }
    match &host.in_use {
        None => true,
        Some(list) => {
            let mut i: usize = 0;
            while i < list.len()
                invariant
                    i <= list.len(),
                    !ctx.sandboxed,
                    host.in_use == Some(*list),
                    forall|k: int| 0 <= k < i ==> !paths::under((#[trigger] list@[k])@, dir@),
                decreases list.len() - i,
            {
                if paths::is_under(list[i].as_str(), dir) {
                    proof {
                        let used = host.in_use->Some_0;
                        assert(paths::under(used@[i as int]@, dir@));
                    }
                    return true;
                }
                i += 1;
            }
            false
        },
    }
}

// -------------------------------------------------------------------- detector

/// Whether the entry `raw` of `tree` is offered: a real directory, not kept,
/// of no installed package, spoken of by no launcher, old enough, and not in
/// use.
pub open spec fn orphaned(
    tree: Seq<char>,
    raw: Seq<char>,
    installed: Seq<Seq<char>>,
    ctx: &Ctx,
    days: u32,
    host: &Host,
) -> bool {
    let path = paths::joined(tree, raw);
    let name = plain_name(raw);
    match host.found(path) {
        Some(entry) => {
            &&& entry.kind == Kind::Dir
            &&& !kept(raw, name)
            &&& !owned(installed, name)
            &&& !referenced(name, ctx, host)
            &&& host.older_than(entry, days)
            &&& !in_use(path, ctx, host)
        },
        None => false,
    }
}

pub open spec fn orphan_candidate(tree: Seq<char>, raw: Seq<char>, ctx: &Ctx) -> CandidateModel {
    let path = paths::joined(tree, raw);
    fresh(
        Some(path),
        labels::shown(path, ctx.root@, ctx.home@) + " (experimental guess)"@,
        0,
        Risk::Risky,
    )
}

pub open spec fn orphans_upto(
    tree: Seq<char>,
    names: Seq<Seq<char>>,
    n: int,
    installed: Seq<Seq<char>>,
    ctx: &Ctx,
    days: u32,
    host: &Host,
) -> Seq<CandidateModel>
    decreases n,
{
    if n <= 0 {
        Seq::empty()
    } else {
        let before = orphans_upto(tree, names, n - 1, installed, ctx, days, host);
        if orphaned(tree, names[n - 1], installed, ctx, days, host) {
            before.push(orphan_candidate(tree, names[n - 1], ctx))
        } else {
            before
        }
    }
}

pub open spec fn orphans_in(
    tree: Seq<char>,
    installed: Seq<Seq<char>>,
    ctx: &Ctx,
    days: u32,
    host: &Host,
) -> Seq<CandidateModel> {
    match host.listing(tree) {
        Some(names) => orphans_upto(
            tree,
            names,
            names.len() as int,
            installed,
            ctx,
            days,
            host,
        ),
        None => Seq::empty(),
    }
}

/// The orphans of the three trees, by label.
pub open spec fn orphans(installed: Seq<Seq<char>>, ctx: &Ctx, days: u32, host: &Host) -> Seq<
    CandidateModel,
> {
    order::by_label(
        orphans_in(paths::joined(ctx.home@, ".config"@), installed, ctx, days, host)
            + orphans_in(paths::joined(ctx.home@, ".local/share"@), installed, ctx, days, host)
            + orphans_in(paths::joined(ctx.home@, ".cache"@), installed, ctx, days, host),
    )
}

fn is_orphaned(
    path: &str,
    raw: &str,
    entry: &Entry,
    installed: &Vec<String>,
    ctx: &Ctx,
    days: u32,
    host: &Host,
) -> (r: bool)
    ensures
        r == ({
            let name = plain_name(raw@);
            &&& entry.kind == Kind::Dir
            &&& !kept(raw@, name)
            &&& !owned(text::texts(installed@), name)
            &&& !referenced(name, ctx, host)
            &&& host.older_than(*entry, days)
            &&& !in_use(path@, ctx, host)
        }),
{
    if entry.kind != Kind::Dir {
        return false;
    }
    let name = normalize(raw);
    let name = name.as_str();
    !is_kept(raw, name) && !package_matches(installed, name) && !referenced_in_desktop_files(
        name,
        ctx,
        host,
    ) && host.is_older_than(entry, days) && !process_using_path(path, ctx, host)
}

fn scan_tree(
    tree: &str,
    installed: &Vec<String>,
    ctx: &Ctx,
    days: u32,
    host: &Host,
) -> (r: Vec<Candidate>)
    ensures
        candidates(r@) == orphans_in(tree@, text::texts(installed@), ctx, days, host),
{
    let mut out: Vec<Candidate> = Vec::new();
    let ghost known = text::texts(installed@);
    assert(candidates(out@) =~= Seq::empty());
    if let Some(names) = host.list(tree) {
        let ghost all = text::texts(names@);
        let mut i: usize = 0;
        assert(all.len() == names.len());
        while i < names.len()
            invariant
                i <= names.len(),
                all == text::texts(names@),
                known == text::texts(installed@),
                candidates(out@) == orphans_upto(
                    tree@,
                    all,
                    i as int,
                    known,
                    ctx,
                    days,
                    host,
                ),
            decreases names.len() - i,
        {
            assert(all[i as int] == names@[i as int]@);
            let raw = names[i].as_str();
            let path = paths::join(tree, raw);
            let ghost had = out@;
            if let Some(entry) = host.find(path.as_str()) {
                if is_orphaned(path.as_str(), raw, entry, installed, ctx, days, host) {
                    let shown = display_label(path.as_str(), ctx);
                    let label = concat2(shown.as_str(), " (experimental guess)");
                    let c = Candidate::new(Some(path), label, 0, Risk::Risky);
                    out.push(c);
                    assert(candidates(out@) =~= candidates(had).push(
                        orphan_candidate(tree@, raw@, ctx),
                    ));
                }
            }
            i += 1;
        }
    }
    out
}

/// How many commands the detector runs.
pub open spec fn orphan_steps(log: Seq<Exchange>, start: int, has_flatpak: bool) -> int {
    if installed_reply(log[start].reply) is Some && has_flatpak {
        2
    } else {
        1
    }
}

/// The names that own directories, given the answers.
pub open spec fn known_names(log: Seq<Exchange>, start: int, has_flatpak: bool) -> Seq<Seq<char>> {
    installed_reply(log[start].reply)->Some_0 + (if has_flatpak {
        let apps = flatpak::list_reply(log[start + 1].reply);
        app_names(apps, apps.len() as int)
    } else {
        Seq::empty()
    })
}

pub open spec fn orphan_asked(log: Seq<Exchange>, start: int, has_flatpak: bool) -> bool {
    &&& log.len() == start + orphan_steps(log, start, has_flatpak)
    &&& log[start].argv == installed_argv()
    &&& orphan_steps(log, start, has_flatpak) == 2 ==> log[start + 1].argv == flatpak::list_argv()
}

/// What the detector makes of the answers: nothing without evidence of what
/// is installed.
pub open spec fn orphans_found(
    log: Seq<Exchange>,
    start: int,
    ctx: &Ctx,
    days: u32,
    host: &Host,
) -> Seq<CandidateModel> {
    if installed_reply(log[start].reply) is None {
        Seq::empty()
    } else {
        orphans(known_names(log, start, flatpak::available(ctx, host)), ctx, days, host)
    }
}

pub fn orphan_configs_detector<R: CommandRunner>(
    ctx: &Ctx,
    config: &Config,
    host: &Host,
    runner: &mut R,
) -> (r: Vec<Candidate>)
    ensures
        final(runner).prepared() == old(runner).prepared(),
        ({
            let start = old(runner).exchanges().len() as int;
            let log = final(runner).exchanges();
            &&& log.len() >= start
            &&& log.take(start) == old(runner).exchanges()
            &&& orphan_asked(log, start, flatpak::available(ctx, host))
            &&& candidates(r@) == orphans_found(
                log,
                start,
                ctx,
                config.clean.orphan_min_age_days,
                host,
            )
        }),
{
    let ghost before = runner.exchanges();
    let ghost start = before.len() as int;
    let mut installed = match installed_pacman_names(runner) {
        Some(names) => names,
        None => {
            let none: Vec<Candidate> = Vec::new();
            assert(candidates(none@) =~= Seq::empty());
            assert(runner.exchanges().take(start) =~= before);
            return none;
        },
    };
    let ghost first = runner.exchanges();
    let ghost pacman = installed@;
    let mut apps = installed_flatpak_names(ctx, host, runner);
    let ghost flat = apps@;
    installed.append(&mut apps);
    let days: u32 = config.clean.orphan_min_age_days;
    proof {
        let log = runner.exchanges();
        assert(first.take(start) =~= before);
        if flatpak::available(ctx, host) {
            assert(log[start] == first[start]) by {
                assert(log.drop_last()[start] == log[start]);
            }
            assert(log.take(start) =~= log.drop_last().take(start));
        }
        assert(text::texts(installed@) =~= text::texts(pacman) + text::texts(flat));
        assert(text::texts(installed@) =~= known_names(
            log,
            start,
            flatpak::available(ctx, host),
        ));
    }
    let a = paths::join(ctx.home.as_str(), ".config");
    let b = paths::join(ctx.home.as_str(), ".local/share");
    let c = paths::join(ctx.home.as_str(), ".cache");
    let mut out = scan_tree(a.as_str(), &installed, ctx, days, host);
    let mut second = scan_tree(b.as_str(), &installed, ctx, days, host);
    let mut third = scan_tree(c.as_str(), &installed, ctx, days, host);
    let ghost x = out@;
    let ghost y = second@;
    let ghost z = third@;
    out.append(&mut second);
    out.append(&mut third);
    assert(candidates(out@) =~= candidates(x) + candidates(y) + candidates(z));
    order::sort_by_label(out)
}

// ------------------------------------------------------------------------ laws


/// Where leftovers are looked for.
pub open spec fn trees(ctx: &Ctx) -> Seq<Seq<char>> {
    seq![ctx.home@ + "/.config"@, ctx.home@ + "/.local/share"@, ctx.home@ + "/.cache"@]
}

/// Whether a launcher in `dir` starts or shows something with `name` in it.
pub open spec fn launched_from(dir: Seq<char>, name: Seq<char>, host: &Host) -> bool {
    exists|i: int, l: int, value: Seq<char>|
        #![trigger host.listing(dir)->0[i], text::lines(launcher(dir, i, host))[l], text::lowercase(value)]
        {
            let lines = text::lines(launcher(dir, i, host));
            &&& host.listing(dir) is Some
            &&& 0 <= i < host.listing(dir)->0.len()
            &&& paths::extension(host.listing(dir)->0[i]) == Some("desktop"@)
            &&& host.found(dir + "/"@ + host.listing(dir)->0[i]) is Some
            &&& host.found(dir + "/"@ + host.listing(dir)->0[i])->0.text is Some
            &&& 0 <= l < lines.len()
            &&& lines[l] == "Exec="@ + value || lines[l] == "Name="@ + value
            &&& text::contains(text::lowercase(value), name)
        }
}

/// The text of the `i`-th file of `dir`.
pub open spec fn launcher(dir: Seq<char>, i: int, host: &Host) -> Seq<char> {
    host.found(dir + "/"@ + host.listing(dir)->0[i])->0.text->0@
}

/// Whether a package or an app goes by this name, or by one that holds it or
/// is held by it; names of two characters or fewer are taken whole.
pub open spec fn claimed_by(p: Seq<char>, name: Seq<char>) -> bool {
    ||| p == name
    ||| p.len() > 2 && name.len() > 2 && text::contains(p, name)
    ||| p.len() > 2 && name.len() > 2 && text::contains(name, p)
}

/// Whether nothing shows that the directory `raw` of `tree` is still wanted.
#[verifier::opaque]
pub open spec fn unclaimed(
    tree: Seq<char>,
    raw: Seq<char>,
    installed: Seq<Seq<char>>,
    ctx: &Ctx,
    days: u32,
    host: &Host,
) -> bool {
    let path = tree + "/"@ + raw;
    let name = text::lowercase(raw);
    &&& host.found(path) is Some
    &&& host.found(path)->0.kind == Kind::Dir
    &&& host.found(path)->0.modified is Some
    &&& host.found(path)->0.modified->0 + days * 86_400_000_000_000 <= host.now
    &&& raw[0] != '.'
    &&& raw != "Trash"@
    &&& name != "gtk-2.0"@ && name != "gtk-3.0"@ && name != "gtk-4.0"@ && name != "dconf"@
    &&& name != "pulse"@ && name != "systemd"@ && name != "fontconfig"@ && name != "autostart"@
    &&& name != "applications"@ && name != "icons"@ && name != "themes"@ && name != "fonts"@
    &&& name != "mime"@ && name != "nvim"@ && name != "trash"@ && name != "badger"@
    &&& name != "pipewire"@ && name != "wireplumber"@
    &&& !text::starts_with(name, "kde"@) && !text::starts_with(name, "plasma"@)
    &&& forall|i: int| 0 <= i < installed.len() ==> !claimed_by(#[trigger] installed[i], name)
    &&& name.len() > 2
    &&& !launched_from(ctx.home@ + "/.local/share/applications"@, name, host)
    &&& !launched_from(ctx.root@ + "/usr/share/applications"@, name, host)
    &&& ctx.sandboxed || (host.in_use is Some && forall|i: int|
        0 <= i < host.in_use->0@.len() ==> !paths::under((#[trigger] host.in_use->0@[i])@, path))
}

/// Whether this offers the directory, marked as a guess and not selected.
pub open spec fn offers_guess(
    c: CandidateModel,
    tree: Seq<char>,
    raw: Seq<char>,
    ctx: &Ctx,
) -> bool {
    &&& c.path == Some(tree + "/"@ + raw)
    &&& c.label == labels::shown(tree + "/"@ + raw, ctx.root@, ctx.home@)
        + " (experimental guess)"@
    &&& !c.selectable
}

proof fn lemma_launched_from(dir: Seq<char>, name: Seq<char>, host: &Host)
    requires
        dir.len() > 0,
        dir.last() != '/',
        host.listing(dir) is Some ==> forall|i: int|
            0 <= i < host.listing(dir)->0.len() ==> paths::entry_name(
                #[trigger] host.listing(dir)->0[i],
            ),
    ensures
        dir_mentions(dir, name, host) <==> launched_from(dir, name, host),
{
    reveal_strlit("/");
    assert("/"@ =~= seq!['/']);
    if let Some(entries) = host.listing(dir) {
        if dir_mentions(dir, name, host) {
            let i = choose|i: int|
                0 <= i < entries.len() && entry_mentions(dir, #[trigger] entries[i], name, host);
            assert(paths::entry_name(host.listing(dir)->0[i]));
            paths::law_a_child_adds_its_name(dir, entries[i]);
            let contents = launcher(dir, i, host);
            let lines = text::lines(contents);
            let l = choose|l: int|
                0 <= l < text::lines(contents).len() && mentions(
                    #[trigger] text::lines(contents)[l],
                    name,
                );
            let value = match text::after_prefix(lines[l], "Exec="@) {
                Some(value) => value,
                None => text::after_prefix(lines[l], "Name="@)->0,
            };
            assert(lines[l] =~= "Exec="@ + value || lines[l] =~= "Name="@ + value);
            assert(text::contains(text::lowercase(value), name));
            assert(host.listing(dir)->0[i] == entries[i]);
        }
        if launched_from(dir, name, host) {
            let (i, l, value) = choose|i: int, l: int, value: Seq<char>|
                #![trigger host.listing(dir)->0[i], text::lines(launcher(dir, i, host))[l], text::lowercase(value)]
                {
                    let lines = text::lines(launcher(dir, i, host));
                    &&& host.listing(dir) is Some
                    &&& 0 <= i < host.listing(dir)->0.len()
                    &&& paths::extension(host.listing(dir)->0[i]) == Some("desktop"@)
                    &&& host.found(dir + "/"@ + host.listing(dir)->0[i]) is Some
                    &&& host.found(dir + "/"@ + host.listing(dir)->0[i])->0.text is Some
                    &&& 0 <= l < lines.len()
                    &&& lines[l] == "Exec="@ + value || lines[l] == "Name="@ + value
                    &&& text::contains(text::lowercase(value), name)
                };
            assert(paths::entry_name(host.listing(dir)->0[i]));
            paths::law_a_child_adds_its_name(dir, entries[i]);
            let contents = launcher(dir, i, host);
            let line = text::lines(contents)[l];
            lemma_mentions(line, value, name);
            assert(mentions(text::lines(contents)[l], name));
            assert(file_mentions(contents, name));
            assert(entry_mentions(dir, entries[i], name, host));
        }
    }
}

proof fn lemma_mentions(line: Seq<char>, value: Seq<char>, name: Seq<char>)
    requires
        line == "Exec="@ + value || line == "Name="@ + value,
        text::contains(text::lowercase(value), name),
    ensures
        mentions(line, name),
{
    reveal_strlit("Exec=");
    reveal_strlit("Name=");
    let n = 5int;
    if line == "Exec="@ + value {
        assert(line.subrange(0, n) =~= "Exec="@);
        assert(line.skip(n) =~= value);
    } else {
        assert(line.subrange(0, n) =~= "Name="@);
        assert(line.subrange(0, n)[0] == 'N');
        assert("Exec="@[0] == 'E');
        assert(line.skip(n) =~= value);
    }
}

proof fn lemma_unclaimed(
    tree: Seq<char>,
    raw: Seq<char>,
    installed: Seq<Seq<char>>,
    ctx: &Ctx,
    days: u32,
    host: &Host,
)
    requires
        tree.len() > 0,
        tree.last() != '/',
        paths::entry_name(raw),
        written_ctx(ctx, host),
    ensures
        orphaned(tree, raw, installed, ctx, days, host) <==> unclaimed(
            tree,
            raw,
            installed,
            ctx,
            days,
            host,
        ),
{
    reveal(unclaimed);
    reveal_strlit("/");
    assert("/"@ =~= seq!['/']);
    paths::law_a_child_adds_its_name(tree, raw);
    let path = tree + "/"@ + raw;
    assert(paths::joined(tree, raw) == path);
    reveal_strlit(".");
    assert("."@ =~= seq!['.']);
    assert(raw.subrange(0, 1) =~= seq![raw[0]]);
    assert(seq![raw[0]][0] == raw[0]);
    assert(seq!['.'][0] == '.');
    assert(text::starts_with(raw, "."@) <==> raw[0] == '.');
    if raw[0] != '.' {
        assert(dots_end(raw, 0) == 0);
        assert(raw.skip(0) =~= raw);
        let name = text::lowercase(raw);
        assert(plain_name(raw) == name);
        let a = ctx.home@ + "/.local/share/applications"@;
        let b = ctx.root@ + "/usr/share/applications"@;
        lemma_app_dirs(ctx);
        lemma_launched_from(a, name, host);
        lemma_launched_from(b, name, host);
        lemma_keep_list(name);
        assert(owned(installed, name) <==> !(forall|i: int|
            0 <= i < installed.len() ==> !claimed_by(#[trigger] installed[i], name))) by {
            if owned(installed, name) {
                let i = choose|i: int|
                    0 <= i < installed.len() && same_app(#[trigger] installed[i], name);
                assert(claimed_by(installed[i], name));
            }
            if !(forall|i: int|
                0 <= i < installed.len() ==> !claimed_by(#[trigger] installed[i], name)) {
                let i = choose|i: int|
                    0 <= i < installed.len() && claimed_by(#[trigger] installed[i], name);
                assert(same_app(installed[i], name));
            }
        }
    }
}

proof fn lemma_keep_list(name: Seq<char>)
    ensures
        keep_list().contains(name) <==> !({
            &&& name != "gtk-2.0"@ && name != "gtk-3.0"@ && name != "gtk-4.0"@ && name != "dconf"@
            &&& name != "pulse"@ && name != "systemd"@ && name != "fontconfig"@ && name
                != "autostart"@
            &&& name != "applications"@ && name != "icons"@ && name != "themes"@ && name
                != "fonts"@
            &&& name != "mime"@ && name != "nvim"@ && name != "trash"@ && name != "badger"@
            &&& name != "pipewire"@ && name != "wireplumber"@
        }),
{
    let k = keep_list();
    assert(k.len() == 18);
    assert(k[0] == "gtk-2.0"@ && k[1] == "gtk-3.0"@ && k[2] == "gtk-4.0"@ && k[3] == "dconf"@);
    assert(k[4] == "pulse"@ && k[5] == "systemd"@ && k[6] == "fontconfig"@);
    assert(k[7] == "autostart"@ && k[8] == "applications"@ && k[9] == "icons"@);
    assert(k[10] == "themes"@ && k[11] == "fonts"@ && k[12] == "mime"@ && k[13] == "nvim"@);
    assert(k[14] == "trash"@ && k[15] == "badger"@ && k[16] == "pipewire"@);
    assert(k[17] == "wireplumber"@);
}

/// Whether the directories are written as directories are, and those with
/// launchers hold nothing but names.
pub open spec fn written_ctx(ctx: &Ctx, host: &Host) -> bool {
    &&& ctx.home@.len() > 0 && ctx.home@.last() != '/'
    &&& ctx.root@.len() > 0 && ctx.root@.last() != '/'
    &&& forall|dir: Seq<char>, i: int|
        host.listing(dir) is Some && 0 <= i < host.listing(dir)->0.len() ==> paths::entry_name(
            #[trigger] host.listing(dir)->0[i],
        )
}

proof fn lemma_app_dirs(ctx: &Ctx)
    requires
        ctx.home@.len() > 0,
        ctx.home@.last() != '/',
        ctx.root@.len() > 0,
        ctx.root@.last() != '/',
    ensures
        ({
            let a = ctx.home@ + "/.local/share/applications"@;
            let b = ctx.root@ + "/usr/share/applications"@;
            &&& paths::joined(ctx.home@, ".local/share/applications"@) == a
            &&& paths::joined(ctx.root@, "usr/share/applications"@) == b
            &&& a.len() > 0 && a.last() != '/'
            &&& b.len() > 0 && b.last() != '/'
        }),
{
    reveal_strlit("/");
    reveal_strlit(".local/share/applications");
    reveal_strlit("/.local/share/applications");
    reveal_strlit("usr/share/applications");
    reveal_strlit("/usr/share/applications");
    let a = ctx.home@ + "/.local/share/applications"@;
    let b = ctx.root@ + "/usr/share/applications"@;
    assert("/.local/share/applications"@ =~= "/"@ + ".local/share/applications"@);
    assert("/usr/share/applications"@ =~= "/"@ + "usr/share/applications"@);
    assert(paths::joined(ctx.home@, ".local/share/applications"@) =~= a);
    assert(paths::joined(ctx.root@, "usr/share/applications"@) =~= b);
    assert(a.last() == 's');
    assert(b.last() == 's');
}

proof fn lemma_trees(ctx: &Ctx)
    requires
        ctx.home@.len() > 0,
        ctx.home@.last() != '/',
    ensures
        paths::joined(ctx.home@, ".config"@) == trees(ctx)[0],
        paths::joined(ctx.home@, ".local/share"@) == trees(ctx)[1],
        paths::joined(ctx.home@, ".cache"@) == trees(ctx)[2],
        forall|t: int|
            0 <= t < 3 ==> (#[trigger] trees(ctx)[t]).len() > 0 && trees(ctx)[t].last() != '/',
{
    reveal_strlit("/");
    reveal_strlit(".config");
    reveal_strlit("/.config");
    reveal_strlit(".local/share");
    reveal_strlit("/.local/share");
    reveal_strlit(".cache");
    reveal_strlit("/.cache");
    assert("/.config"@ =~= "/"@ + ".config"@);
    assert("/.local/share"@ =~= "/"@ + ".local/share"@);
    assert("/.cache"@ =~= "/"@ + ".cache"@);
    let home = ctx.home@;
    assert(paths::joined(home, ".config"@) =~= home + "/.config"@);
    assert(paths::joined(home, ".local/share"@) =~= home + "/.local/share"@);
    assert(paths::joined(home, ".cache"@) =~= home + "/.cache"@);
    assert((home + "/.config"@).last() == 'g');
    assert((home + "/.local/share"@).last() == 'e');
    assert((home + "/.cache"@).last() == 'e');
}

proof fn lemma_guesses_upto(
    tree: Seq<char>,
    names: Seq<Seq<char>>,
    n: int,
    installed: Seq<Seq<char>>,
    ctx: &Ctx,
    days: u32,
    host: &Host,
)
    requires
        0 <= n <= names.len(),
        host.listing(tree) == Some(names),
        tree.len() > 0,
        tree.last() != '/',
        written_ctx(ctx, host),
    ensures
        order::stands_for(
            orphans_upto(tree, names, n, installed, ctx, days, host),
            names,
            n,
            |raw: Seq<char>| unclaimed(tree, raw, installed, ctx, days, host),
            |c: CandidateModel, raw: Seq<char>| offers_guess(c, tree, raw, ctx),
        ),
    decreases n,
{
    let wanted = |raw: Seq<char>| unclaimed(tree, raw, installed, ctx, days, host);
    let fits = |c: CandidateModel, raw: Seq<char>| offers_guess(c, tree, raw, ctx);
    let list = orphans_upto(tree, names, n, installed, ctx, days, host);
    if n > 0 {
        lemma_guesses_upto(tree, names, n - 1, installed, ctx, days, host);
        let before = orphans_upto(tree, names, n - 1, installed, ctx, days, host);
        let name = names[n - 1];
        assert(wanted(name) <==> orphaned(tree, name, installed, ctx, days, host)) by {
            assert(paths::entry_name(host.listing(tree)->0[n - 1]));
            lemma_unclaimed(tree, name, installed, ctx, days, host);
        }
        let c = orphan_candidate(tree, name, ctx);
        assert(fits(c, name)) by {
            assert(paths::entry_name(host.listing(tree)->0[n - 1]));
            reveal_strlit("/");
            assert("/"@ =~= seq!['/']);
            paths::law_a_child_adds_its_name(tree, name);
        }
        if wanted(name) {
            order::lemma_stands_for_more(before, names, n, wanted, fits, c);
        } else {
            order::lemma_stands_for_same(before, names, n, wanted, fits);
        }
    } else {
        order::lemma_stands_for_none(list, names, wanted, fits);
    }
}

/// Every directory in the three trees that nothing lays claim to, and that
/// has not been changed for the configured days, is offered as a guess; it
/// is never selected by itself.
pub proof fn law_unclaimed_directories_are_offered(
    installed: Seq<Seq<char>>,
    ctx: &Ctx,
    days: u32,
    host: &Host,
    t: int,
    j: int,
)
    requires
        written_ctx(ctx, host),
        0 <= t < 3,
        host.listing(trees(ctx)[t]) is Some,
        0 <= j < host.listing(trees(ctx)[t])->0.len(),
        unclaimed(
            trees(ctx)[t],
            host.listing(trees(ctx)[t])->0[j],
            installed,
            ctx,
            days,
            host,
        ),
    ensures
        exists|k: int|
            0 <= k < orphans(installed, ctx, days, host).len() && offers_guess(
                #[trigger] orphans(installed, ctx, days, host)[k],
                trees(ctx)[t],
                host.listing(trees(ctx)[t])->0[j],
                ctx,
            ),
{
    let tree = trees(ctx)[t];
    let names = host.listing(tree)->0;
    let part = orphans_in(tree, installed, ctx, days, host);
    assert(exists|m: int|
        0 <= m < part.len() && offers_guess(#[trigger] part[m], tree, names[j], ctx)) by {
        lemma_trees(ctx);
        lemma_guesses_upto(tree, names, names.len() as int, installed, ctx, days, host);
        let wanted = |raw: Seq<char>| unclaimed(tree, raw, installed, ctx, days, host);
        let fits = |c: CandidateModel, raw: Seq<char>| offers_guess(c, tree, raw, ctx);
        let m = order::lemma_held(part, names, names.len() as int, wanted, fits, j);
        assert(offers_guess(part[m], tree, names[j], ctx));
    }
    let m = choose|m: int|
        0 <= m < part.len() && offers_guess(#[trigger] part[m], tree, names[j], ctx);
    lemma_part_is_offered(installed, ctx, days, host, t, m);
    let list = orphans(installed, ctx, days, host);
    let k = choose|k: int| 0 <= k < list.len() && list[k] == part[m];
    assert(offers_guess(list[k], tree, names[j], ctx));
}

proof fn lemma_part_is_offered(
    installed: Seq<Seq<char>>,
    ctx: &Ctx,
    days: u32,
    host: &Host,
    t: int,
    m: int,
)
    requires
        ctx.home@.len() > 0,
        ctx.home@.last() != '/',
        0 <= t < 3,
        0 <= m < orphans_in(trees(ctx)[t], installed, ctx, days, host).len(),
    ensures
        orphans(installed, ctx, days, host).contains(
            orphans_in(trees(ctx)[t], installed, ctx, days, host)[m],
        ),
{
    lemma_trees(ctx);
    let x = orphans_in(trees(ctx)[t], installed, ctx, days, host)[m];
    let a = orphans_in(trees(ctx)[0], installed, ctx, days, host);
    let b = orphans_in(trees(ctx)[1], installed, ctx, days, host);
    let c = orphans_in(trees(ctx)[2], installed, ctx, days, host);
    let all = a + b + c;
    let at = if t == 0 {
        m
    } else if t == 1 {
        a.len() + m
    } else {
        a.len() + b.len() + m
    };
    assert(all[at] == x);
    assert(all.contains(x));
    order::lemma_sorted_holds(all, |c: CandidateModel| seq![c.label], x);
}

/// Nothing else is offered: neither what belongs to something installed, nor
/// what a launcher speaks of, nor what is in use, shared, or too new.
pub proof fn law_only_unclaimed_directories_are_offered(
    installed: Seq<Seq<char>>,
    ctx: &Ctx,
    days: u32,
    host: &Host,
    k: int,
)
    requires
        written_ctx(ctx, host),
        0 <= k < orphans(installed, ctx, days, host).len(),
    ensures
        exists|t: int, j: int|
            #![trigger host.listing(trees(ctx)[t])->0[j]]
            {
                let tree = trees(ctx)[t];
                let raw = host.listing(tree)->0[j];
                &&& 0 <= t < 3
                &&& host.listing(tree) is Some
                &&& 0 <= j < host.listing(tree)->0.len()
                &&& unclaimed(tree, raw, installed, ctx, days, host)
                &&& offers_guess(orphans(installed, ctx, days, host)[k], tree, raw, ctx)
            },
{
    lemma_trees(ctx);
    let a = orphans_in(trees(ctx)[0], installed, ctx, days, host);
    let b = orphans_in(trees(ctx)[1], installed, ctx, days, host);
    let c = orphans_in(trees(ctx)[2], installed, ctx, days, host);
    let all = a + b + c;
    let list = orphans(installed, ctx, days, host);
    let x = list[k];
    let key = |c: CandidateModel| seq![c.label];
    order::lemma_sorted_holds(all, key, x);
    assert(list.contains(x));
    let at = choose|at: int| 0 <= at < all.len() && all[at] == x;
    let (t, m) = if at < a.len() {
        (0int, at)
    } else if at < a.len() + b.len() {
        (1int, at - a.len())
    } else {
        (2int, at - a.len() - b.len())
    };
    let tree = trees(ctx)[t];
    let part = orphans_in(tree, installed, ctx, days, host);
    assert(part[m] == x);
    let names = host.listing(tree)->0;
    lemma_guesses_upto(tree, names, names.len() as int, installed, ctx, days, host);
    let wanted = |raw: Seq<char>| unclaimed(tree, raw, installed, ctx, days, host);
    let fits = |c: CandidateModel, raw: Seq<char>| offers_guess(c, tree, raw, ctx);
    let j = order::lemma_held_for(part, names, names.len() as int, wanted, fits, m);
    assert(host.listing(trees(ctx)[t])->0[j] == names[j]);
    assert(unclaimed(tree, names[j], installed, ctx, days, host));
}

/// Packages listed one to a line are what is installed, in lower case. With
/// no answer, a failed one, or none but empty lines there is no evidence and
/// nothing is offered.
pub proof fn law_nothing_is_guessed_without_packages(
    list: Seq<Seq<char>>,
    success: bool,
    stderr: Seq<char>,
    log: Seq<Exchange>,
    start: int,
    ctx: &Ctx,
    days: u32,
    host: &Host,
)
    requires
        forall|i: int| 0 <= i < list.len() ==> text::one_word(#[trigger] list[i]),
        forall|i: int|
            0 <= i < list.len() ==> text::lowercase(#[trigger] list[i]).len() > 0,
    ensures
        log[start].reply is Err ==> orphans_found(log, start, ctx, days, host).len() == 0,
        log[start].reply is Ok && !log[start].reply->Ok_0.success ==> orphans_found(
            log,
            start,
            ctx,
            days,
            host,
        ).len() == 0,
        ({
            let out = crate::runner::OutputModel { success, stdout: text::unlined(list), stderr };
            if success && list.len() > 0 {
                installed_reply(Ok(out)) == Some(
                    Seq::new(list.len(), |i: int| text::lowercase(list[i])),
                )
            } else {
                installed_reply(Ok(out)) is None
            }
        }),
{
    assert forall|i: int| 0 <= i < list.len() implies !(#[trigger] list[i]).contains('\n')
        && !list[i].contains('\r') by {
        let s = list[i];
        assert forall|k: int| 0 <= k < s.len() implies s[k] != '\n' && s[k] != '\r' by {
            assert(!text::white(s[k]));
        }
    }
    text::law_lines_read_back(list);
    lemma_names_of_words(list, list.len() as int);
    assert(names_upto(list, list.len() as int) =~= Seq::new(
        list.len(),
        |i: int| text::lowercase(list[i]),
    ));
}

proof fn lemma_names_of_words(list: Seq<Seq<char>>, n: int)
    requires
        0 <= n <= list.len(),
        forall|i: int| 0 <= i < list.len() ==> text::one_word(#[trigger] list[i]),
        forall|i: int|
            0 <= i < list.len() ==> text::lowercase(#[trigger] list[i]).len() > 0,
    ensures
        names_upto(list, n).len() == n,
        forall|i: int|
            0 <= i < n ==> #[trigger] names_upto(list, n)[i] == text::lowercase(list[i]),
    decreases n,
{
    if n > 0 {
        lemma_names_of_words(list, n - 1);
        assert(text::bare(list[n - 1]));
        text::lemma_trim_of_bare(list[n - 1]);
    }
}

/// Pacman is asked for the names of everything installed.
pub proof fn law_installed_names_are_asked_for()
    ensures
        installed_argv() == seq!["pacman"@].push("-Qq"@),
{
    assert(installed_argv() =~= seq!["pacman"@].push("-Qq"@));
}

} // verus!

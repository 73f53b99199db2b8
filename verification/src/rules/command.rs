//! Rules that clean through the tools of the distribution.

use vstd::prelude::*;

use crate::config::Config;
use crate::ctx::Ctx;
use crate::item::{candidates, fresh, Candidate, CandidateModel, Risk};
use crate::rules::{
    cmds, expand_path_spec, expanded, models, strs0, strs1, Action, Applicability,
    ApplicabilityModel, CmdModel, CmdSpec, Commands, Detector, DetectorModel, Finder, Rule,
    RuleModel, SelectedCommands,
};
use crate::rules::dev::{cache, cache_rule};
use crate::runner::{CommandRunner, Exchange, Reply};
use crate::text;
use crate::text::{concat2, decimal_text, list2};
use crate::util;

verus! {

broadcast use vstd::seq::group_seq_axioms;

pub const PACMAN_CACHE_NOTES: &'static str =
    "Size shown is before cleaning; paccache decides what actually goes.";

pub const SYNC_PARTIAL_NOTES: &'static str =
    "Interrupted package downloads; safe to remove and re-fetch.";

pub const PARU_NOTES: &'static str = "paru re-clones AUR packages as needed.";

pub const JOURNALD_NOTES: &'static str = "Vacuums the journal down to the configured size cap.";

pub const ORPHANS_NOTES: &'static str =
    "No longer required by any explicitly installed package. Some may be optional dependencies you still want — review before removing.";

/// A rule that runs commands with root privilege if `command` is installed.
pub open spec fn command_rule(
    id: Seq<char>,
    title: Seq<char>,
    risk: Risk,
    command: Seq<char>,
    finder: Finder,
    action: Action,
    notes: Seq<char>,
) -> RuleModel {
    RuleModel {
        id,
        title,
        risk,
        requires_sudo: true,
        applicable: ApplicabilityModel::CommandExists(command),
        allowed_prefixes: Seq::empty(),
        detector: DetectorModel::Fn(finder),
        action,
        notes,
    }
}

fn rule(
    id: &'static str,
    title: &'static str,
    risk: Risk,
    command: &'static str,
    finder: Finder,
    action: Action,
    notes: &'static str,
) -> (r: Rule)
    ensures
        r@ == command_rule(id@, title@, risk, command@, finder, action, notes@),
{
    Rule {
        id,
        title,
        risk,
        requires_sudo: true,
        applicable: Applicability::CommandExists(command),
        allowed_prefixes: strs0(),
        detector: Detector::Fn(finder),
        action,
        notes,
    }
}

pub open spec fn table() -> Seq<RuleModel> {
    seq![
        command_rule(
            "pacman.cache"@,
            "Pacman package cache"@,
            Risk::Safe,
            "paccache"@,
            Finder::PacmanCache,
            Action::Cmd(Commands::PacmanCache),
            PACMAN_CACHE_NOTES@,
        ),
        (RuleModel {
            requires_sudo: true,
            allowed_prefixes: seq!["/var/cache/pacman/pkg"@],
            ..cache_rule(
                "pacman.sync_partial"@,
                "Partial pacman downloads"@,
                "/var/cache/pacman/pkg/*.part"@,
                SYNC_PARTIAL_NOTES@,
            )
        }),
        (RuleModel {
            applicable: ApplicabilityModel::CommandExists("paru"@),
            ..cache_rule("aur.paru"@, "paru cache"@, "~/.cache/paru"@, PARU_NOTES@)
        }),
        command_rule(
            "system.journald"@,
            "systemd journal"@,
            Risk::Moderate,
            "journalctl"@,
            Finder::Journald,
            Action::Cmd(Commands::Journald),
            JOURNALD_NOTES@,
        ),
        command_rule(
            "pacman.orphans"@,
            "Orphaned packages"@,
            Risk::Moderate,
            "pacman"@,
            Finder::PacmanOrphans,
            Action::CmdSelected(SelectedCommands::PacmanOrphans),
            ORPHANS_NOTES@,
        ),
    ]
}

pub fn rules() -> (r: Vec<Rule>)
    ensures
        models(r@) == table(),
{
    let mut partial = cache(
        "pacman.sync_partial",
        "Partial pacman downloads",
        "/var/cache/pacman/pkg/*.part",
        SYNC_PARTIAL_NOTES,
    );
    partial.requires_sudo = true;
    partial.allowed_prefixes = strs1("/var/cache/pacman/pkg");
    let mut paru = cache("aur.paru", "paru cache", "~/.cache/paru", PARU_NOTES);
    paru.applicable = Applicability::CommandExists("paru");
    let r = vec![
        rule(
            "pacman.cache",
            "Pacman package cache",
            Risk::Safe,
            "paccache",
            Finder::PacmanCache,
            Action::Cmd(Commands::PacmanCache),
            PACMAN_CACHE_NOTES,
        ),
        partial,
        paru,
        rule(
            "system.journald",
            "systemd journal",
            Risk::Moderate,
            "journalctl",
            Finder::Journald,
            Action::Cmd(Commands::Journald),
            JOURNALD_NOTES,
        ),
        rule(
            "pacman.orphans",
            "Orphaned packages",
            Risk::Moderate,
            "pacman",
            Finder::PacmanOrphans,
            Action::CmdSelected(SelectedCommands::PacmanOrphans),
            ORPHANS_NOTES,
        ),
    ];
    assert(models(r@) =~= table());
    r
}

// ------------------------------------------------------------ installed sizes

/// The package that `pacman -Qi` speaks of after its first `n` lines.
pub open spec fn package_at(lines: Seq<Seq<char>>, n: int) -> Option<Seq<char>>
    decreases n,
{
    if n <= 0 {
        None
    } else {
        match text::after_prefix(lines[n - 1], "Name"@) {
            Some(rest) => match text::halves(rest, ":"@) {
                Some((_, name)) => Some(text::trim(name)),
                None => None,
            },
            None => package_at(lines, n - 1),
        }
    }
}

/// The size that a line gives, if it is one that does and can be read.
pub open spec fn size_on(line: Seq<char>) -> Option<nat> {
    if text::starts_with(line, "Name"@) {
        None
    } else {
        match text::after_prefix(line, "Installed Size"@) {
            Some(rest) => match text::halves(rest, ":"@) {
                Some((_, size)) => util::human_size(text::trim(size)),
                None => None,
            },
            None => None,
        }
    }
}

/// The packages and sizes in the first `n` lines, in the order given.
pub open spec fn sizes_upto(lines: Seq<Seq<char>>, n: int) -> Seq<(Seq<char>, nat)>
    decreases n,
{
    if n <= 0 {
        Seq::empty()
    } else {
        match (package_at(lines, n - 1), size_on(lines[n - 1])) {
            (Some(name), Some(bytes)) => sizes_upto(lines, n - 1).push((name, bytes)),
            _ => sizes_upto(lines, n - 1),
        }
    }
}

pub open spec fn sizes_in(stdout: Seq<char>) -> Seq<(Seq<char>, nat)> {
    sizes_upto(text::lines(stdout), text::lines(stdout).len() as int)
}

/// The size of `name`: the last one given for it.
pub open spec fn size_of(sizes: Seq<(Seq<char>, nat)>, name: Seq<char>) -> Option<nat>
    decreases sizes.len(),
{
    if sizes.len() == 0 {
        None
    } else if sizes.last().0 == name {
        Some(sizes.last().1)
    } else {
        size_of(sizes.drop_last(), name)
    }
}

pub open spec fn size_views(v: Seq<(String, u64)>) -> Seq<(Seq<char>, nat)> {
    Seq::new(v.len(), |i: int| (v[i].0@, v[i].1 as nat))
}

/// Reads the "Name" and "Installed Size" fields of `pacman -Qi`. An entry
/// whose size cannot be read is left out.
pub fn parse_pacman_installed_sizes(stdout: &str) -> (r: Vec<(String, u64)>)
    ensures
        size_views(r@) == sizes_in(stdout@),
{
    let list = text::split_lines(stdout);
    let ghost all = text::texts(list@);
    let mut out: Vec<(String, u64)> = Vec::new();
    let mut current: Option<String> = None;
    let mut i: usize = 0;
    assert(size_views(out@) =~= Seq::empty());
    while i < list.len()
        invariant
            i <= list.len(),
            all == text::texts(list@),
            text::opt_text(current) == package_at(all, i as int),
            size_views(out@) == sizes_upto(all, i as int),
        decreases list.len() - i,
    {
        let line = list[i].as_str();
        assert(all[i as int] == line@);
        let ghost had = out@;
        if let Some(rest) = text::cut_prefix(line, "Name") {
            current = match text::cut_at(rest.as_str(), ":") {
                Some((_, name)) => Some(text::trimmed(name.as_str())),
                None => None,
            };
        } else if let Some(rest) = text::cut_prefix(line, "Installed Size") {
            if let Some(name) = &current {
                if let Some((_, size)) = text::cut_at(rest.as_str(), ":") {
                    let size = text::trimmed(size.as_str());
                    if let Some(bytes) = util::parse_human_size(size.as_str()) {
                        out.push((name.clone(), bytes));
                        assert(size_views(out@) =~= size_views(had).push((name@, bytes as nat)));
                    }
                }
            }
        }
        i += 1;
    }
    out
}

pub fn find_size(sizes: &Vec<(String, u64)>, name: &str) -> (r: Option<u64>)
    ensures
        util::opt_size(r) == size_of(size_views(sizes@), name@),
{
    let ghost all = size_views(sizes@);
    let mut i: usize = sizes.len();
    assert(all.take(all.len() as int) =~= all);
    while i > 0
        invariant
            i <= sizes.len(),
            all == size_views(sizes@),
            size_of(all, name@) == size_of(all.take(i as int), name@),
        decreases i,
    {
        assert(all.take(i as int).drop_last() =~= all.take(i - 1));
        i -= 1;
        if text::same(sizes[i].0.as_str(), name) {
            return Some(sizes[i].1);
        }
    }
    None
}

// -------------------------------------------------------------------- orphans

pub open spec fn orphans_argv() -> Seq<Seq<char>> {
    seq!["pacman"@, "-Qtdq"@]
}

pub open spec fn query_argv(names: Seq<Seq<char>>) -> Seq<Seq<char>> {
    seq!["pacman"@, "-Qi"@] + names
}

/// The lines a command printed; none where it could not be run.
pub open spec fn printed_lines(reply: Reply) -> Seq<Seq<char>> {
    match reply {
        Ok(out) => text::lines(out.stdout),
        Err(_) => Seq::empty(),
    }
}

pub open spec fn printed_sizes(reply: Reply) -> Seq<(Seq<char>, nat)> {
    match reply {
        Ok(out) => sizes_in(out.stdout),
        Err(_) => Seq::empty(),
    }
}

/// The candidate for an orphaned package. One of unknown size is offered
/// with a word about it.
pub open spec fn orphan(name: Seq<char>, sizes: Seq<(Seq<char>, nat)>) -> CandidateModel {
    match size_of(sizes, name) {
        Some(bytes) => fresh(None, name, bytes as u64, Risk::Moderate),
        None => fresh(None, name + " (size unknown)"@, 0, Risk::Moderate),
    }
}

pub open spec fn orphans(names: Seq<Seq<char>>, sizes: Seq<(Seq<char>, nat)>) -> Seq<
    CandidateModel,
> {
    Seq::new(names.len(), |i: int| orphan(names[i], sizes))
}

/// The candidates for these packages, given the sizes that are known.
pub fn orphan_candidates(names: &Vec<String>, sizes: &Vec<(String, u64)>) -> (r: Vec<Candidate>)
    ensures
        candidates(r@) == orphans(text::texts(names@), size_views(sizes@)),
{
    let mut out: Vec<Candidate> = Vec::new();
    let mut i: usize = 0;
    while i < names.len()
        invariant
            i <= names.len(),
            out.len() == i,
            forall|k: int|
                0 <= k < i ==> (#[trigger] out@[k])@ == orphan(names@[k]@, size_views(sizes@)),
        decreases names.len() - i,
    {
        let name = names[i].as_str();
        let c = match find_size(sizes, name) {
            Some(bytes) => Candidate::new(None, name.to_owned(), bytes, Risk::Moderate),
            None => Candidate::new(None, concat2(name, " (size unknown)"), 0, Risk::Moderate),
        };
        out.push(c);
        i += 1;
    }
    assert(candidates(out@) =~= orphans(text::texts(names@), size_views(sizes@)));
    out
}

/// Whether the commands of `log` from `start` on ask for the orphans and,
/// where there are any, once for all their sizes.
pub open spec fn orphans_asked(log: Seq<Exchange>, start: int) -> bool {
    let names = printed_lines(log[start].reply);
    &&& log.len() == start + (if names.len() == 0 {
        1int
    } else {
        2int
    })
    &&& log[start].argv == orphans_argv()
    &&& names.len() > 0 ==> log[start + 1].argv == query_argv(names)
}

/// What the answers come to.
pub open spec fn orphans_found(log: Seq<Exchange>, start: int) -> Seq<CandidateModel> {
    let names = printed_lines(log[start].reply);
    if names.len() == 0 {
        Seq::empty()
    } else {
        orphans(names, printed_sizes(log[start + 1].reply))
    }
}

pub fn pacman_orphans_detector<R: CommandRunner>(runner: &mut R) -> (r: Vec<Candidate>)
    ensures
        final(runner).prepared() == old(runner).prepared(),
        ({
            let start = old(runner).exchanges().len() as int;
            let log = final(runner).exchanges();
            &&& log.len() >= start
            &&& log.take(start) == old(runner).exchanges()
            &&& orphans_asked(log, start)
            &&& candidates(r@) == orphans_found(log, start)
        }),
{
    let ghost before = runner.exchanges();
    let ghost start = before.len() as int;
    let argv = list2("pacman", "-Qtdq");
    let names = match runner.run(&argv) {
        Ok(out) => text::split_lines(out.stdout.as_str()),
        Err(_) => {
            let none: Vec<String> = Vec::new();
            assert(text::texts(none@) =~= Seq::empty());
            none
        },
    };
    let ghost first = runner.exchanges();
    let ghost all = text::texts(names@);
    assert(all == printed_lines(first[start].reply));
    assert(all.len() == names.len());
    assert(first.take(start) =~= before);
    if names.len() == 0 {
        let none: Vec<Candidate> = Vec::new();
        assert(candidates(none@) =~= Seq::empty());
        return none;
    }
    let mut argv = list2("pacman", "-Qi");
    let mut more = text::copies(&names);
    let ghost head = argv@;
    let ghost tail = more@;
    argv.append(&mut more);
    assert(text::texts(argv@) =~= text::texts(head) + text::texts(tail));
    let sizes = match runner.run(&argv) {
        Ok(out) => parse_pacman_installed_sizes(out.stdout.as_str()),
        Err(_) => {
            let none: Vec<(String, u64)> = Vec::new();
            assert(size_views(none@) =~= Seq::empty());
            none
        },
    };
    proof {
        let log = runner.exchanges();
        assert(log[start] == first[start]);
        assert(log.take(start) =~= before);
    }
    orphan_candidates(&names, &sizes)
}

/// The package that a label names: its first word.
pub open spec fn first_word(label: Seq<char>) -> Seq<char> {
    let w = text::words(label);
    if w.len() > 0 {
        w[0]
    } else {
        label
    }
}

pub open spec fn first_words(selected: Seq<CandidateModel>) -> Seq<Seq<char>> {
    Seq::new(selected.len(), |i: int| first_word(selected[i].label))
}

pub open spec fn remove_orphans(selected: Seq<CandidateModel>) -> CmdModel {
    CmdModel {
        argv: seq!["pacman"@, "-Rns"@, "--noconfirm"@] + first_words(selected),
        sudo: true,
        label: "Remove selected orphan packages"@,
    }
}

/// One command removes the packages that the selected labels name; what a
/// label says about an unknown size is not part of the name.
pub fn pacman_orphans_cmd(selected: &Vec<Candidate>) -> (r: Vec<CmdSpec>)
    ensures
        cmds(r@) == seq![remove_orphans(candidates(selected@))],
{
    let ghost sel = candidates(selected@);
    let mut argv = text::list3("pacman", "-Rns", "--noconfirm");
    let ghost head = text::texts(argv@);
    let mut i: usize = 0;
    assert(text::texts(argv@) =~= head + first_words(sel).take(0));
    while i < selected.len()
        invariant
            i <= selected.len(),
            sel == candidates(selected@),
            text::texts(argv@) == head + first_words(sel).take(i as int),
        decreases selected.len() - i,
    {
        let label = selected[i].label.as_str();
        let ghost had = argv@;
        let mut words = text::split_words(label);
        let ghost w = text::texts(words@);
        let name = if words.len() > 0 {
            assert(w[0] == words@[0]@);
            words[0].clone()
        } else {
            assert(w.len() == 0);
            label.to_owned()
        };
        assert(name@ == first_words(sel)[i as int]);
        argv.push(name);
        assert(text::texts(argv@) =~= text::texts(had).push(first_words(sel)[i as int]));
        assert(first_words(sel).take(i + 1) =~= first_words(sel).take(i as int).push(
            first_words(sel)[i as int],
        ));
        i += 1;
        assert(text::texts(argv@) =~= head + first_words(sel).take(i as int));
    }
    assert(first_words(sel).take(sel.len() as int) =~= first_words(sel));
    let out = vec![
        CmdSpec { argv, sudo: true, label: "Remove selected orphan packages".to_owned() },
    ];
    assert(cmds(out@) =~= seq![remove_orphans(sel)]);
    out
}

// ------------------------------------------------------- paccache, journalctl

/// One candidate that only shows a size.
pub open spec fn sized_dir(dir: Seq<char>, ctx: &Ctx, risk: Risk) -> Seq<CandidateModel> {
    seq![fresh(Some(expanded(dir, ctx.root@, ctx.home@)), dir, 0, risk)]
}

fn sized(dir: &str, ctx: &Ctx, risk: Risk) -> (r: Vec<Candidate>)
    ensures
        candidates(r@) == sized_dir(dir@, ctx, risk),
{
    let c = Candidate::new(Some(expand_path_spec(dir, ctx)), dir.to_owned(), 0, risk);
    let out = vec![c];
    assert(candidates(out@) =~= sized_dir(dir@, ctx, risk));
    out
}

pub fn pacman_cache_size(ctx: &Ctx) -> (r: Vec<Candidate>)
    ensures
        candidates(r@) == sized_dir("/var/cache/pacman/pkg"@, ctx, Risk::Safe),
{
    sized("/var/cache/pacman/pkg", ctx, Risk::Safe)
}

pub open spec fn paccache_commands(keep: u32) -> Seq<CmdModel> {
    seq![
        (CmdModel {
            argv: seq!["paccache"@, "-rk"@ + text::decimal(keep as nat)],
            sudo: true,
            label: "Remove old cached package versions"@,
        }),
        (CmdModel {
            argv: seq!["paccache"@, "-ruk0"@],
            sudo: true,
            label: "Remove cache for uninstalled packages"@,
        }),
    ]
}

pub fn pacman_cache_cmd(config: &Config) -> (r: Vec<CmdSpec>)
    ensures
        cmds(r@) == paccache_commands(config.clean.paccache_keep),
{
    let keep = decimal_text(config.clean.paccache_keep as u64);
    let flag = concat2("-rk", keep.as_str());
    let out = vec![
        CmdSpec {
            argv: list2("paccache", flag.as_str()),
            sudo: true,
            label: "Remove old cached package versions".to_owned(),
        },
        CmdSpec {
            argv: list2("paccache", "-ruk0"),
            sudo: true,
            label: "Remove cache for uninstalled packages".to_owned(),
        },
    ];
    assert(cmds(out@) =~= paccache_commands(config.clean.paccache_keep));
    out
}

pub fn journald_size(ctx: &Ctx) -> (r: Vec<Candidate>)
    ensures
        candidates(r@) == sized_dir("/var/log/journal"@, ctx, Risk::Moderate),
{
    sized("/var/log/journal", ctx, Risk::Moderate)
}

pub open spec fn journalctl_commands(size: Seq<char>) -> Seq<CmdModel> {
    seq![
        (CmdModel {
            argv: seq!["journalctl"@, "--vacuum-size="@ + size],
            sudo: true,
            label: "Vacuum systemd journal"@,
        }),
    ]
}

pub fn journald_cmd(config: &Config) -> (r: Vec<CmdSpec>)
    ensures
        cmds(r@) == journalctl_commands(config.clean.journal_max_size@),
{
    let flag = concat2("--vacuum-size=", config.clean.journal_max_size.as_str());
    let out = vec![
        CmdSpec {
            argv: list2("journalctl", flag.as_str()),
            sudo: true,
            label: "Vacuum systemd journal".to_owned(),
        },
    ];
    assert(cmds(out@) =~= journalctl_commands(config.clean.journal_max_size@));
    out
}

// ------------------------------------------------------------------------ laws


/// The lines in which sizes are answered: two for each package.
pub open spec fn size_lines(list: Seq<(Seq<char>, Seq<char>)>) -> Seq<Seq<char>> {
    Seq::new(
        2 * list.len(),
        |i: int|
            if i % 2 == 0 {
                "Name            : "@ + list[i / 2].0
            } else {
                "Installed Size  : "@ + list[i / 2].1
            },
    )
}

proof fn lemma_size_lines(list: Seq<(Seq<char>, Seq<char>)>, m: int)
    requires
        0 <= m <= list.len(),
        forall|i: int|
            0 <= i < list.len() ==> {
                &&& text::bare((#[trigger] list[i]).0)
                &&& text::bare(list[i].1)
                &&& util::human_size(list[i].1) is Some
            },
    ensures
        sizes_upto(size_lines(list), 2 * m).len() == m,
        forall|i: int|
            0 <= i < m ==> #[trigger] sizes_upto(size_lines(list), 2 * m)[i] == (
                list[i].0,
                util::human_size(list[i].1)->0,
            ),
    decreases m,
{
    let lines = size_lines(list);
    if m > 0 {
        lemma_size_lines(list, m - 1);
        let name = list[m - 1].0;
        let size = list[m - 1].1;
        let a = lines[2 * m - 2];
        let b = lines[2 * m - 1];
        assert(a == "Name            : "@ + name);
        assert(b == "Installed Size  : "@ + size);
        reveal_strlit("Name");
        reveal_strlit("Name            : ");
        reveal_strlit("Installed Size");
        reveal_strlit("Installed Size  : ");
        reveal_strlit(":");
        assert(":"@ =~= seq![':']);
        assert(a.subrange(0, 4) =~= "Name"@);
        let ra = a.skip(4);
        let pad = a.subrange(4, 16);
        assert(ra =~= pad + seq![':'] + (seq![' '] + name));
        assert(!pad.contains(':')) by {
            assert forall|k: int| 0 <= k < 12 implies pad[k] != ':' by {
                assert(pad[k] == "Name            : "@[k + 4]);
            }
        }
        text::law_halves_at_the_first(pad, ':', seq![' '] + name);
        lemma_trim_space(name);
        assert(b[0] == 'I');
        if text::starts_with(b, "Name"@) {
            assert(b.subrange(0, 4)[0] == 'I');
            assert("Name"@[0] == 'N');
        }
        assert(b.subrange(0, 14) =~= "Installed Size"@);
        let rb = b.skip(14);
        let gap = b.subrange(14, 16);
        assert(rb =~= gap + seq![':'] + (seq![' '] + size));
        assert(!gap.contains(':')) by {
            assert forall|k: int| 0 <= k < 2 implies gap[k] != ':' by {
                assert(gap[k] == "Installed Size  : "@[k + 14]);
            }
        }
        text::law_halves_at_the_first(gap, ':', seq![' '] + size);
        lemma_trim_space(size);
        assert(package_at(lines, 2 * m - 1) == Some(name));
        assert(size_on(a) is None);
        assert(size_on(b) == util::human_size(size));
        assert(sizes_upto(lines, 2 * m - 1) == sizes_upto(lines, 2 * m - 2));
        assert(2 * (m - 1) == 2 * m - 2);
    }
}

proof fn lemma_trim_space(s: Seq<char>)
    requires
        text::bare(s),
    ensures
        text::trim(seq![' '] + s) == s,
{
    text::law_trim_takes_the_ends(seq![' '], s, Seq::empty());
    assert(seq![' '] + s + Seq::empty() =~= seq![' '] + s);
}

/// Every package that is told to be an orphan is offered under its name and
/// not selected, with the size told for it; one with no size told has a word
/// on it. What is selected of these is removed by name.
pub proof fn law_orphans_are_offered_and_removed_by_name(
    log: Seq<Exchange>,
    start: int,
    names: Seq<Seq<char>>,
    list: Seq<(Seq<char>, Seq<char>)>,
    i: int,
)
    requires
        names.len() > 0,
        forall|k: int| 0 <= k < names.len() ==> text::one_word(#[trigger] names[k]),
        log[start].reply is Ok,
        log[start].reply->Ok_0.stdout == text::unlined(names),
        forall|k: int|
            0 <= k < list.len() ==> {
                &&& text::one_word((#[trigger] list[k]).0)
                &&& text::bare(list[k].1)
                &&& !list[k].1.contains('\n')
                &&& !list[k].1.contains('\r')
                &&& util::human_size(list[k].1) is Some
            },
        0 <= i < names.len(),
        log[start + 1].reply is Err || (log[start + 1].reply->Ok_0.stdout == text::unlined(
            size_lines(list),
        )),
    ensures
        ({
            let found = orphans_found(log, start);
            let told = log[start + 1].reply is Ok;
            &&& found.len() == names.len()
            &&& found[i].path is None
            &&& !found[i].selectable
            &&& first_word(found[i].label) == names[i]
            &&& !told || (forall|k: int|
                0 <= k < list.len() ==> (#[trigger] list[k]).0 != names[i]) ==> found[i].label
                == names[i] + " (size unknown)"@ && found[i].bytes == 0
            &&& forall|k: int|
                #![trigger list[k]]
                told && 0 <= k < list.len() && list[k].0 == names[i] && (forall|m: int|
                    k < m < list.len() ==> (#[trigger] list[m]).0 != names[i])
                    ==> found[i].label == names[i] && found[i].bytes == util::human_size(
                    list[k].1,
                )->0 as u64
        }),
{
    assert forall|k: int| 0 <= k < names.len() implies !(#[trigger] names[k]).contains('\n')
        && !names[k].contains('\r') by {
        let s = names[k];
        assert forall|m: int| 0 <= m < s.len() implies s[m] != '\n' && s[m] != '\r' by {
            assert(!text::white(s[m]));
        }
    }
    text::law_lines_read_back(names);
    let found = orphans_found(log, start);
    let sizes = printed_sizes(log[start + 1].reply);
    if log[start + 1].reply is Ok {
        lemma_size_lines_are_lines(list);
        text::law_lines_read_back(size_lines(list));
        lemma_size_lines(list, list.len() as int);
        assert(sizes.len() == list.len());
    }
    lemma_last_size(sizes, names[i]);
    let name = names[i];
    text::law_one_word_is_itself(name);
    reveal_strlit(" (size unknown)");
    let tail = " (size unknown)"@.skip(1);
    assert(name + " (size unknown)"@ =~= name + seq![' '] + tail);
    text::law_words_of_both_sides(name, ' ', tail);
    assert(first_word(name) == name);
    assert(first_word(name + " (size unknown)"@) == name);
    assert(found[i] == orphan(name, sizes));
    let told = log[start + 1].reply is Ok;
    if told {
        assert forall|k: int| 0 <= k < list.len() implies #[trigger] sizes[k] == (
            list[k].0,
            util::human_size(list[k].1)->0,
        ) by {}
    }
    if !told || (forall|k: int| 0 <= k < list.len() ==> (#[trigger] list[k]).0 != name) {
        assert forall|k: int| 0 <= k < sizes.len() implies (#[trigger] sizes[k]).0 != name by {
            assert(list[k].0 != name);
        }
        assert(size_of(sizes, name) is None);
    }
    assert forall|k: int|
        #![trigger list[k]]
        told && 0 <= k < list.len() && list[k].0 == name && (forall|m: int|
            k < m < list.len() ==> (#[trigger] list[m]).0 != name) implies found[i].label == name
        && found[i].bytes == util::human_size(list[k].1)->0 as u64 by {
        assert(sizes[k].0 == name);
        assert forall|m: int| k < m < sizes.len() implies (#[trigger] sizes[m]).0 != name by {
            assert(list[m].0 != name);
        }
        assert(size_of(sizes, name) == Some(sizes[k].1));
    }
}

proof fn lemma_size_lines_are_lines(list: Seq<(Seq<char>, Seq<char>)>)
    requires
        forall|k: int|
            0 <= k < list.len() ==> {
                &&& text::one_word((#[trigger] list[k]).0)
                &&& !list[k].1.contains('\n')
                &&& !list[k].1.contains('\r')
            },
    ensures
        forall|i: int|
            0 <= i < size_lines(list).len() ==> !(#[trigger] size_lines(list)[i]).contains('\n')
                && !size_lines(list)[i].contains('\r'),
{
    reveal_strlit("Name            : ");
    reveal_strlit("Installed Size  : ");
    let lines = size_lines(list);
    assert forall|i: int| 0 <= i < lines.len() implies !(#[trigger] lines[i]).contains('\n')
        && !lines[i].contains('\r') by {
        let line = lines[i];
        let x = list[i / 2];
        assert forall|m: int| 0 <= m < line.len() implies line[m] != '\n' && line[m] != '\r' by {
            if m < 18 {
                assert(i % 2 == 0 ==> line[m] == "Name            : "@[m]);
                assert(i % 2 != 0 ==> line[m] == "Installed Size  : "@[m]);
            } else if i % 2 == 0 {
                assert(line[m] == x.0[m - 18]);
                assert(!text::white(x.0[m - 18]));
            } else {
                assert(line[m] == x.1[m - 18]);
                assert(x.1.contains(x.1[m - 18]));
            }
        }
    }
}

/// The last size told for a package counts.
proof fn lemma_last_size(sizes: Seq<(Seq<char>, nat)>, name: Seq<char>)
    ensures
        (forall|k: int| 0 <= k < sizes.len() ==> (#[trigger] sizes[k]).0 != name) ==> size_of(
            sizes,
            name,
        ) is None,
        forall|k: int|
            #![trigger sizes[k]]
            0 <= k < sizes.len() && sizes[k].0 == name && (forall|m: int|
                k < m < sizes.len() ==> (#[trigger] sizes[m]).0 != name) ==> size_of(sizes, name)
                == Some(sizes[k].1),
    decreases sizes.len(),
{
    if sizes.len() > 0 {
        let rest = sizes.drop_last();
        lemma_last_size(rest, name);
        assert(sizes.last() == sizes[sizes.len() - 1]);
        assert forall|k: int|
            #![trigger sizes[k]]
            0 <= k < sizes.len() && sizes[k].0 == name && (forall|m: int|
                k < m < sizes.len() ==> (#[trigger] sizes[m]).0 != name) implies size_of(
            sizes,
            name,
        ) == Some(sizes[k].1) by {
            if k < sizes.len() - 1 {
                assert(sizes[sizes.len() - 1].0 != name);
                assert(rest[k] == sizes[k]);
                assert forall|m: int| k < m < rest.len() implies (#[trigger] rest[m]).0 != name by {
                    assert(rest[m] == sizes[m]);
                }
            }
        }
        if forall|k: int| 0 <= k < sizes.len() ==> (#[trigger] sizes[k]).0 != name {
            assert forall|k: int| 0 <= k < rest.len() implies (#[trigger] rest[k]).0 != name by {
                assert(rest[k] == sizes[k]);
            }
        }
    }
}

/// The caches are cut down with root's power to what the settings ask for.
pub proof fn law_caches_are_cut_as_configured(keep: u32, size: Seq<char>)
    ensures
        paccache_commands(keep).len() == 2,
        paccache_commands(keep)[0].argv == seq!["paccache"@, "-rk"@ + text::decimal(keep as nat)],
        paccache_commands(keep)[1].argv == seq!["paccache"@, "-ruk0"@],
        paccache_commands(keep)[0].sudo && paccache_commands(keep)[1].sudo,
        journalctl_commands(size).len() == 1,
        journalctl_commands(size)[0].argv == seq!["journalctl"@, "--vacuum-size="@ + size],
        journalctl_commands(size)[0].sudo,
{
}

} // verus!

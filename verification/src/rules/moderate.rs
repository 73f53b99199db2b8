//! Rules that need a second look: containers, flatpak, coredumps.

use vstd::prelude::*;

use crate::ctx::Ctx;
use crate::host;
use crate::host::{command_exists, Host};
use crate::item::{candidates, fresh, Candidate, CandidateModel, Risk};
use crate::order;
use crate::paths;
use crate::rules::{
    cmds, models, strs0, strs1, strs2, Action, Applicability, ApplicabilityModel, CmdModel,
    CmdSpec, Commands, Detector, DetectorModel, Finder, Rule, RuleModel, SelectedCommands,
};
use crate::runner::{CommandRunner, Exchange, Reply};
use crate::text;
use crate::text::{concat3, concat5, list4};
use crate::util;

verus! {

broadcast use vstd::seq::group_seq_axioms;

pub const UNUSED_NOTES: &'static str =
    "Runtimes/extensions no installed app currently depends on; flatpak re-fetches them if something needs them again.";

pub const APP_CACHES_NOTES: &'static str =
    "Per-app cache directories under Flatpak's sandboxed data dir; apps rebuild these as needed.";

pub const CONTAINERS_NOTES: &'static str =
    "Dangling images and exited containers only — review names before removing anything you meant to keep. Never runs a full system prune.";

pub const COREDUMPS_NOTES: &'static str =
    "Crash dumps kept for debugging; safe to remove once you've inspected any you need.";

pub const SNAP_CACHE_NOTES: &'static str = "Cached snap revisions; snapd re-downloads as needed.";

pub open spec fn table() -> Seq<RuleModel> {
    seq![
        (RuleModel {
            id: "flatpak.unused"@,
            title: "Unused flatpak runtimes"@,
            risk: Risk::Moderate,
            requires_sudo: false,
            applicable: ApplicabilityModel::CommandExists("flatpak"@),
            allowed_prefixes: Seq::empty(),
            detector: DetectorModel::Fn(Finder::FlatpakUnused),
            action: Action::Cmd(Commands::FlatpakUnused),
            notes: UNUSED_NOTES@,
        }),
        (RuleModel {
            id: "flatpak.app_caches"@,
            title: "Flatpak app caches"@,
            risk: Risk::Moderate,
            requires_sudo: false,
            applicable: ApplicabilityModel::Always,
            allowed_prefixes: seq!["~/.var/app"@],
            detector: DetectorModel::Fn(Finder::FlatpakAppCaches),
            action: Action::DeletePaths,
            notes: APP_CACHES_NOTES@,
        }),
        (RuleModel {
            id: "containers.prune"@,
            title: "Unused containers and images"@,
            risk: Risk::Moderate,
            requires_sudo: false,
            applicable: ApplicabilityModel::CommandExistsAny(seq!["podman"@, "docker"@]),
            allowed_prefixes: Seq::empty(),
            detector: DetectorModel::Fn(Finder::ContainersPrune),
            action: Action::CmdSelected(SelectedCommands::ContainersPrune),
            notes: CONTAINERS_NOTES@,
        }),
        (RuleModel {
            id: "system.coredumps"@,
            title: "systemd coredumps"@,
            risk: Risk::Moderate,
            requires_sudo: true,
            applicable: ApplicabilityModel::Always,
            allowed_prefixes: seq!["/var/lib/systemd/coredump"@],
            detector: DetectorModel::Globs(seq!["/var/lib/systemd/coredump/*"@]),
            action: Action::DeletePaths,
            notes: COREDUMPS_NOTES@,
        }),
        (RuleModel {
            id: "snap.cache"@,
            title: "snapd cache"@,
            risk: Risk::Moderate,
            requires_sudo: true,
            applicable: ApplicabilityModel::CommandExists("snap"@),
            allowed_prefixes: seq!["/var/lib/snapd/cache"@],
            detector: DetectorModel::Globs(seq!["/var/lib/snapd/cache/*"@]),
            action: Action::DeletePaths,
            notes: SNAP_CACHE_NOTES@,
        }),
    ]
}

pub fn rules() -> (r: Vec<Rule>)
    ensures
        models(r@) == table(),
{
    let r = vec![
        Rule {
            id: "flatpak.unused",
            title: "Unused flatpak runtimes",
            risk: Risk::Moderate,
            requires_sudo: false,
            applicable: Applicability::CommandExists("flatpak"),
            allowed_prefixes: strs0(),
            detector: Detector::Fn(Finder::FlatpakUnused),
            action: Action::Cmd(Commands::FlatpakUnused),
            notes: UNUSED_NOTES,
        },
        Rule {
            id: "flatpak.app_caches",
            title: "Flatpak app caches",
            risk: Risk::Moderate,
            requires_sudo: false,
            applicable: Applicability::Always,
            allowed_prefixes: strs1("~/.var/app"),
            detector: Detector::Fn(Finder::FlatpakAppCaches),
            action: Action::DeletePaths,
            notes: APP_CACHES_NOTES,
        },
        Rule {
            id: "containers.prune",
            title: "Unused containers and images",
            risk: Risk::Moderate,
            requires_sudo: false,
            applicable: Applicability::CommandExistsAny(strs2("podman", "docker")),
            allowed_prefixes: strs0(),
            detector: Detector::Fn(Finder::ContainersPrune),
            action: Action::CmdSelected(SelectedCommands::ContainersPrune),
            notes: CONTAINERS_NOTES,
        },
        Rule {
            id: "system.coredumps",
            title: "systemd coredumps",
            risk: Risk::Moderate,
            requires_sudo: true,
            applicable: Applicability::Always,
            allowed_prefixes: strs1("/var/lib/systemd/coredump"),
            detector: Detector::Globs(strs1("/var/lib/systemd/coredump/*")),
            action: Action::DeletePaths,
            notes: COREDUMPS_NOTES,
        },
        Rule {
            id: "snap.cache",
            title: "snapd cache",
            risk: Risk::Moderate,
            requires_sudo: true,
            applicable: Applicability::CommandExists("snap"),
            allowed_prefixes: strs1("/var/lib/snapd/cache"),
            detector: Detector::Globs(strs1("/var/lib/snapd/cache/*")),
            action: Action::DeletePaths,
            notes: SNAP_CACHE_NOTES,
        },
    ];
    assert(models(r@) =~= table());
    r
}

// -------------------------------------------------------------------- flatpak

/// A single candidate that only says what a command does.
pub open spec fn informational(label: Seq<char>, risk: Risk) -> Seq<CandidateModel> {
    seq![fresh(None, label, 0, risk)]
}

pub fn inform(label: String, risk: Risk) -> (r: Vec<Candidate>)
    ensures
        candidates(r@) == informational(label@, risk),
{
    let c = Candidate::new(None, label, 0, risk);
    let out = vec![c];
    assert(candidates(out@) =~= seq![c@]);
    out
}

pub fn flatpak_unused_detector() -> (r: Vec<Candidate>)
    ensures
        candidates(r@) == informational("unused flatpak runtimes"@, Risk::Moderate),
{
    inform("unused flatpak runtimes".to_owned(), Risk::Moderate)
}

/// A list of one command.
pub open spec fn one_command(argv: Seq<Seq<char>>, sudo: bool, label: Seq<char>) -> Seq<CmdModel> {
    seq![(CmdModel { argv, sudo, label })]
}

pub fn single(argv: Vec<String>, sudo: bool, label: String) -> (r: Vec<CmdSpec>)
    ensures
        cmds(r@) == one_command(text::texts(argv@), sudo, label@),
{
    let c = CmdSpec { argv, sudo, label };
    let out = vec![c];
    assert(cmds(out@) =~= seq![c@]);
    out
}

/// No root privilege: only the user's own flatpak installation is touched.
pub fn flatpak_unused_cmd() -> (r: Vec<CmdSpec>)
    ensures
        cmds(r@) == one_command(
            seq!["flatpak"@, "uninstall"@, "--unused"@, "--noninteractive"@],
            false,
            "Remove unused flatpak runtimes"@,
        ),
{
    single(
        list4("flatpak", "uninstall", "--unused", "--noninteractive"),
        false,
        "Remove unused flatpak runtimes".to_owned(),
    )
}

pub open spec fn app_cache_dir(ctx: &Ctx, name: Seq<char>) -> Seq<char> {
    paths::joined(paths::joined(paths::joined(ctx.home@, ".var/app"@), name), "cache"@)
}

pub open spec fn app_cache(ctx: &Ctx, name: Seq<char>) -> CandidateModel {
    fresh(
        Some(app_cache_dir(ctx, name)),
        "~/.var/app/"@ + name + "/cache"@,
        0,
        Risk::Moderate,
    )
}

/// The caches there are among the first `n` apps.
pub open spec fn app_caches(names: Seq<Seq<char>>, n: int, ctx: &Ctx, host: &Host) -> Seq<
    CandidateModel,
>
    decreases n,
{
    if n <= 0 {
        Seq::empty()
    } else if host.found(app_cache_dir(ctx, names[n - 1])) is Some {
        app_caches(names, n - 1, ctx, host).push(app_cache(ctx, names[n - 1]))
    } else {
        app_caches(names, n - 1, ctx, host)
    }
}

/// The cache of each app below `~/.var/app` that has one, by label.
pub fn flatpak_app_caches_detector(ctx: &Ctx, host: &Host) -> (r: Vec<Candidate>)
    ensures
        candidates(r@) == order::by_label(
            match host.listing(paths::joined(ctx.home@, ".var/app"@)) {
                Some(names) => app_caches(names, names.len() as int, ctx, host),
                None => Seq::empty(),
            },
        ),
{
    let apps_dir = paths::join(ctx.home.as_str(), ".var/app");
    let mut out: Vec<Candidate> = Vec::new();
    assert(candidates(out@) =~= Seq::empty());
    if let Some(names) = host.list(apps_dir.as_str()) {
        let ghost list = text::texts(names@);
        let mut i: usize = 0;
        while i < names.len()
            invariant
                i <= names.len(),
                list == text::texts(names@),
                apps_dir@ == paths::joined(ctx.home@, ".var/app"@),
                candidates(out@) == app_caches(list, i as int, ctx, host),
            decreases names.len() - i,
        {
            let name = names[i].as_str();
            assert(list[i as int] == name@);
            let app = paths::join(apps_dir.as_str(), name);
            let dir = paths::join(app.as_str(), "cache");
            if host.find(dir.as_str()).is_some() {
                let ghost had = out@;
                let c = Candidate::new(
                    Some(dir),
                    concat3("~/.var/app/", name, "/cache"),
                    0,
                    Risk::Moderate,
                );
                out.push(c);
                assert(candidates(out@) =~= candidates(had).push(app_cache(ctx, name@)));
            }
            i += 1;
        }
    }
    order::sort_by_label(out)
}

// ----------------------------------------------------------------- containers

/// The container tool in use, podman preferred.
pub open spec fn tool(ctx: &Ctx, host: &Host) -> Seq<char> {
    if host::available("podman"@, ctx, host) {
        "podman"@
    } else {
        "docker"@
    }
}

pub fn container_tool(ctx: &Ctx, host: &Host) -> (r: &'static str)
    ensures
        r@ == tool(ctx, host),
{
    if command_exists("podman", ctx, host) {
        "podman"
    } else {
        "docker"
    }
}

pub open spec fn images_argv(tool: Seq<char>) -> Seq<Seq<char>> {
    seq![tool, "images"@, "-f"@, "dangling=true"@, "--format"@] + seq![
        "{{.ID}} {{.Repository}} {{.Size}}"@,
    ]
}

pub open spec fn ps_argv(tool: Seq<char>) -> Seq<Seq<char>> {
    seq![tool, "ps"@, "-a"@, "--filter"@, "status=exited"@] + seq![
        "--format"@,
        "{{.ID}} {{.Names}}"@,
    ]
}

pub open spec fn image_label(repo: Seq<char>, id: Seq<char>) -> Seq<char> {
    "image "@ + repo + " ("@ + id + ")"@
}

pub open spec fn container_label(name: Seq<char>, id: Seq<char>) -> Seq<char> {
    "container "@ + name + " ("@ + id + ")"@
}

/// The candidate for one line of the image list: id, repository and size
/// with a space between.
pub open spec fn image_on(line: Seq<char>) -> Option<CandidateModel> {
    match text::halves(line, " "@) {
        Some((id, rest)) => match text::halves(rest, " "@) {
            Some((repo, size)) => {
                let bytes = match util::human_size(size) {
                    Some(n) => n as u64,
                    None => 0u64,
                };
                Some(fresh(None, image_label(repo, id), bytes, Risk::Moderate))
            },
            None => None,
        },
        None => None,
    }
}

/// The candidate for one line of the container list: id and name.
pub open spec fn container_on(line: Seq<char>) -> Option<CandidateModel> {
    match text::halves(line, " "@) {
        Some((id, name)) => Some(fresh(None, container_label(name, id), 0, Risk::Moderate)),
        None => None,
    }
}

pub open spec fn images_in(lines: Seq<Seq<char>>, n: int) -> Seq<CandidateModel>
    decreases n,
{
    if n <= 0 {
        Seq::empty()
    } else {
        match image_on(lines[n - 1]) {
            Some(c) => images_in(lines, n - 1).push(c),
            None => images_in(lines, n - 1),
        }
    }
}

pub open spec fn containers_in(lines: Seq<Seq<char>>, n: int) -> Seq<CandidateModel>
    decreases n,
{
    if n <= 0 {
        Seq::empty()
    } else {
        match container_on(lines[n - 1]) {
            Some(c) => containers_in(lines, n - 1).push(c),
            None => containers_in(lines, n - 1),
        }
    }
}

pub open spec fn images_reply(reply: Reply) -> Seq<CandidateModel> {
    match reply {
        Ok(out) => images_in(text::lines(out.stdout), text::lines(out.stdout).len() as int),
        Err(_) => Seq::empty(),
    }
}

pub open spec fn containers_reply(reply: Reply) -> Seq<CandidateModel> {
    match reply {
        Ok(out) => containers_in(text::lines(out.stdout), text::lines(out.stdout).len() as int),
        Err(_) => Seq::empty(),
    }
}

fn image_candidate(line: &str) -> (r: Option<Candidate>)
    ensures
        match r {
            Some(c) => image_on(line@) == Some(c@),
            None => image_on(line@) is None,
        },
{
    match text::cut_at(line, " ") {
        Some((id, rest)) => match text::cut_at(rest.as_str(), " ") {
            Some((repo, size)) => {
                let bytes: u64 = match util::parse_human_size(size.as_str()) {
                    Some(n) => n,
                    None => 0,
                };
                let label = concat5("image ", repo.as_str(), " (", id.as_str(), ")");
                Some(Candidate::new(None, label, bytes, Risk::Moderate))
            },
            None => None,
        },
        None => None,
    }
}

fn container_candidate(line: &str) -> (r: Option<Candidate>)
    ensures
        match r {
            Some(c) => container_on(line@) == Some(c@),
            None => container_on(line@) is None,
        },
{
    match text::cut_at(line, " ") {
        Some((id, name)) => {
            let label = concat5("container ", name.as_str(), " (", id.as_str(), ")");
            Some(Candidate::new(None, label, 0, Risk::Moderate))
        },
        None => None,
    }
}

/// The dangling images that a listing names.
pub fn image_candidates(stdout: &str) -> (r: Vec<Candidate>)
    ensures
        candidates(r@) == images_in(text::lines(stdout@), text::lines(stdout@).len() as int),
{
    let list = text::split_lines(stdout);
    let ghost all = text::texts(list@);
    let mut out: Vec<Candidate> = Vec::new();
    let mut i: usize = 0;
    assert(candidates(out@) =~= Seq::empty());
    while i < list.len()
        invariant
            i <= list.len(),
            all == text::texts(list@),
            candidates(out@) == images_in(all, i as int),
        decreases list.len() - i,
    {
        assert(all[i as int] == list@[i as int]@);
        let ghost had = out@;
        if let Some(c) = image_candidate(list[i].as_str()) {
            out.push(c);
            assert(candidates(out@) =~= candidates(had).push(c@));
        }
        i += 1;
    }
    out
}

/// The stopped containers that a listing names.
pub fn container_candidates(stdout: &str) -> (r: Vec<Candidate>)
    ensures
        candidates(r@) == containers_in(text::lines(stdout@), text::lines(stdout@).len() as int),
{
    let list = text::split_lines(stdout);
    let ghost all = text::texts(list@);
    let mut out: Vec<Candidate> = Vec::new();
    let mut i: usize = 0;
    assert(candidates(out@) =~= Seq::empty());
    while i < list.len()
        invariant
            i <= list.len(),
            all == text::texts(list@),
            candidates(out@) == containers_in(all, i as int),
        decreases list.len() - i,
    {
        assert(all[i as int] == list@[i as int]@);
        let ghost had = out@;
        if let Some(c) = container_candidate(list[i].as_str()) {
            out.push(c);
            assert(candidates(out@) =~= candidates(had).push(c@));
        }
        i += 1;
    }
    out
}

/// Whether the commands of `log` from `start` on list dangling images, then
/// exited containers.
pub open spec fn prune_asked(log: Seq<Exchange>, start: int, tool: Seq<char>) -> bool {
    &&& log.len() == start + 2
    &&& log[start].argv == images_argv(tool)
    &&& log[start + 1].argv == ps_argv(tool)
}

/// What the answers come to.
pub open spec fn prune_found(log: Seq<Exchange>, start: int) -> Seq<CandidateModel> {
    images_reply(log[start].reply) + containers_reply(log[start + 1].reply)
}

pub fn containers_prune_detector<R: CommandRunner>(ctx: &Ctx, host: &Host, runner: &mut R) -> (r:
    Vec<Candidate>)
    ensures
        final(runner).prepared() == old(runner).prepared(),
        ({
            let start = old(runner).exchanges().len() as int;
            let log = final(runner).exchanges();
            &&& log.len() >= start
            &&& log.take(start) == old(runner).exchanges()
            &&& prune_asked(log, start, tool(ctx, host))
            &&& candidates(r@) == prune_found(log, start)
        }),
{
    let ghost before = runner.exchanges();
    let ghost start = before.len() as int;
    let name = container_tool(ctx, host);
    let mut argv = text::list5(name, "images", "-f", "dangling=true", "--format");
    let ghost had = argv@;
    argv.push("{{.ID}} {{.Repository}} {{.Size}}".to_owned());
    assert(text::texts(argv@) =~= images_argv(name@));
    let mut out = match runner.run(&argv) {
        Ok(res) => image_candidates(res.stdout.as_str()),
        Err(_) => {
            let none: Vec<Candidate> = Vec::new();
            assert(candidates(none@) =~= Seq::empty());
            none
        },
    };
    let ghost first = runner.exchanges();
    let ghost images = out@;
    let mut argv = text::list5(name, "ps", "-a", "--filter", "status=exited");
    argv.push("--format".to_owned());
    argv.push("{{.ID}} {{.Names}}".to_owned());
    assert(text::texts(argv@) =~= ps_argv(name@));
    let mut more = match runner.run(&argv) {
        Ok(res) => container_candidates(res.stdout.as_str()),
        Err(_) => {
            let none: Vec<Candidate> = Vec::new();
            assert(candidates(none@) =~= Seq::empty());
            none
        },
    };
    let ghost containers = more@;
    out.append(&mut more);
    proof {
        assert(candidates(out@) =~= candidates(images) + candidates(containers));
        let log = runner.exchanges();
        assert(log[start] == first[start]);
        assert(log.take(start) =~= before);
    }
    out
}

/// What stands between the last opening and the last closing bracket, if
/// there is anything.
pub open spec fn bracketed(s: Seq<char>) -> Option<Seq<char>> {
    match (text::rfind(s, "("@, s.len() as int), text::rfind(s, ")"@, s.len() as int)) {
        (Some(a), Some(b)) => if b > a + 1 {
            Some(s.subrange(a + 1, b))
        } else {
            None
        },
        _ => None,
    }
}

/// The id that ends a label of an image or a container.
pub fn extract_id(rest: &str) -> (r: Option<String>)
    ensures
        text::opt_text(r) == bracketed(rest@),
{
    proof {
        reveal_strlit("(");
        reveal_strlit(")");
    }
    let v = text::chars_of(rest);
    let open = text::chars_of("(");
    let close = text::chars_of(")");
    match (text::rfind_text(&v, &open), text::rfind_text(&v, &close)) {
        (Some(a), Some(b)) => if b > a + 1 {
            Some(text::piece(&v, a + 1, b))
        } else {
            None
        },
        _ => None,
    }
}

/// The ids behind `prefix` in the labels of the first `n` candidates.
pub open spec fn image_ids(selected: Seq<CandidateModel>, n: int) -> Seq<Seq<char>>
    decreases n,
{
    if n <= 0 {
        Seq::empty()
    } else {
        let before = image_ids(selected, n - 1);
        match text::after_prefix(selected[n - 1].label, "image "@) {
            Some(rest) => match bracketed(rest) {
                Some(id) => before.push(id),
                None => before,
            },
            None => before,
        }
    }
}

pub open spec fn container_ids(selected: Seq<CandidateModel>, n: int) -> Seq<Seq<char>>
    decreases n,
{
    if n <= 0 {
        Seq::empty()
    } else {
        let before = container_ids(selected, n - 1);
        if text::starts_with(selected[n - 1].label, "image "@) {
            before
        } else {
            match text::after_prefix(selected[n - 1].label, "container "@) {
                Some(rest) => match bracketed(rest) {
                    Some(id) => before.push(id),
                    None => before,
                },
                None => before,
            }
        }
    }
}

/// The commands that remove these: one for the images and one for the
/// containers, each only if there are any.
pub open spec fn prune_commands(
    tool: Seq<char>,
    images: Seq<Seq<char>>,
    containers: Seq<Seq<char>>,
) -> Seq<CmdModel> {
    (if images.len() > 0 {
        one_command(seq![tool, "rmi"@] + images, false, "Remove selected dangling images"@)
    } else {
        Seq::empty()
    }) + (if containers.len() > 0 {
        one_command(seq![tool, "rm"@] + containers, false, "Remove selected stopped containers"@)
    } else {
        Seq::empty()
    })
}

fn removal(name: &str, verb: &str, ids: Vec<String>, label: &str) -> (r: CmdSpec)
    ensures
        r@ == (CmdModel {
            argv: seq![name@, verb@] + text::texts(ids@),
            sudo: false,
            label: label@,
        }),
{
    let mut argv = text::list2(name, verb);
    let ghost head = argv@;
    let mut more = ids;
    argv.append(&mut more);
    assert(text::texts(argv@) =~= text::texts(head) + text::texts(ids@));
    CmdSpec { argv, sudo: false, label: label.to_owned() }
}

pub fn containers_prune_cmd(ctx: &Ctx, host: &Host, selected: &Vec<Candidate>) -> (r: Vec<CmdSpec>)
    ensures
        cmds(r@) == prune_commands(
            tool(ctx, host),
            image_ids(candidates(selected@), selected@.len() as int),
            container_ids(candidates(selected@), selected@.len() as int),
        ),
{
    let ghost sel = candidates(selected@);
    let name = container_tool(ctx, host);
    let mut images: Vec<String> = Vec::new();
    let mut containers: Vec<String> = Vec::new();
    let mut i: usize = 0;
    assert(text::texts(images@) =~= Seq::empty());
    assert(text::texts(containers@) =~= Seq::empty());
    while i < selected.len()
        invariant
            i <= selected.len(),
            sel == candidates(selected@),
            text::texts(images@) == image_ids(sel, i as int),
            text::texts(containers@) == container_ids(sel, i as int),
        decreases selected.len() - i,
    {
        let label = selected[i].label.as_str();
        assert(sel[i as int] == selected@[i as int]@);
        let ghost had_images = images@;
        let ghost had_containers = containers@;
        if let Some(rest) = text::cut_prefix(label, "image ") {
            if let Some(id) = extract_id(rest.as_str()) {
                images.push(id);
                assert(text::texts(images@) =~= text::texts(had_images).push(id@));
            }
        } else if let Some(rest) = text::cut_prefix(label, "container ") {
            if let Some(id) = extract_id(rest.as_str()) {
                containers.push(id);
                assert(text::texts(containers@) =~= text::texts(had_containers).push(id@));
            }
        }
        i += 1;
    }
    let ghost image_list = text::texts(images@);
    let ghost container_list = text::texts(containers@);
    let mut out: Vec<CmdSpec> = Vec::new();
    if images.len() > 0 {
        assert(image_list.len() > 0);
        out.push(removal(name, "rmi", images, "Remove selected dangling images"));
    } else {
        assert(image_list.len() == 0);
    }
    let ghost half = out@;
    assert(cmds(half) =~= prune_commands(name@, image_list, Seq::empty()));
    if containers.len() > 0 {
        assert(container_list.len() > 0);
        out.push(removal(name, "rm", containers, "Remove selected stopped containers"));
    } else {
        assert(container_list.len() == 0);
    }
    assert(cmds(out@) =~= prune_commands(name@, image_list, container_list));
    out
}

/// The label of an image leads back to its id.
pub proof fn law_image_label_names_its_id(repo: Seq<char>, id: Seq<char>)
    requires
        id.len() > 0,
        !id.contains('('),
    ensures
        text::after_prefix(image_label(repo, id), "image "@) is Some,
        bracketed(text::after_prefix(image_label(repo, id), "image "@)->Some_0) == Some(id),
{
    reveal_strlit("image ");
    let label = image_label(repo, id);
    assert(label.subrange(0, 6) =~= "image "@);
    assert(label.skip(6) =~= repo + " ("@ + id + ")"@);
    lemma_bracketed(repo, id);
}

/// The label of a container leads back to its id.
pub proof fn law_container_label_names_its_id(name: Seq<char>, id: Seq<char>)
    requires
        id.len() > 0,
        !id.contains('('),
    ensures
        !text::starts_with(container_label(name, id), "image "@),
        text::after_prefix(container_label(name, id), "container "@) is Some,
        bracketed(text::after_prefix(container_label(name, id), "container "@)->Some_0) == Some(
            id,
        ),
{
    reveal_strlit("container ");
    reveal_strlit("image ");
    let label = container_label(name, id);
    assert(label.subrange(0, 10) =~= "container "@);
    assert(label[0] == 'c');
    if text::starts_with(label, "image "@) {
        assert(label.subrange(0, 6)[0] == label[0]);
    }
    assert(label.skip(10) =~= name + " ("@ + id + ")"@);
    lemma_bracketed(name, id);
}

proof fn lemma_bracketed(name: Seq<char>, id: Seq<char>)
    requires
        id.len() > 0,
        !id.contains('('),
    ensures
        bracketed(name + " ("@ + id + ")"@) == Some(id),
{
    reveal_strlit("(");
    reveal_strlit(")");
    reveal_strlit(" (");
    let s = name + " ("@ + id + ")"@;
    let a = name.len() as int + 1;
    let b = a + 1 + id.len();
    assert(s.len() == b + 1);
    assert(text::at(s, "("@, a)) by {
        assert(s.subrange(a, a + 1) =~= "("@);
    }
    assert forall|j: int| a < j < s.len() implies !text::at(s, "("@, j) by {
        if text::at(s, "("@, j) {
            assert(s.subrange(j, j + 1)[0] == s[j]);
            if j < b {
                assert(s[j] == id[j - a - 1]);
                assert(id.contains(id[j - a - 1]));
            }
        }
    }
    text::lemma_rfind_is(s, "("@, s.len() as int, a);
    assert(text::at(s, ")"@, b)) by {
        assert(s.subrange(b, b + 1) =~= ")"@);
    }
    text::lemma_rfind_is(s, ")"@, s.len() as int, b);
    assert(s.subrange(a + 1, b) =~= id);
}

// ------------------------------------------------------------------------ laws


/// Whether this offers the cache of the app `name`, not selected.
pub open spec fn offers_app_cache(c: CandidateModel, name: Seq<char>, ctx: &Ctx) -> bool {
    &&& c.path == Some(ctx.home@ + "/.var/app/"@ + name + "/cache"@)
    &&& c.label == "~/.var/app/"@ + name + "/cache"@
    &&& !c.selectable
}

proof fn lemma_app_cache_dir(ctx: &Ctx, name: Seq<char>)
    requires
        ctx.home@.len() > 0,
        ctx.home@.last() != '/',
        paths::entry_name(name),
    ensures
        app_cache_dir(ctx, name) == ctx.home@ + "/.var/app/"@ + name + "/cache"@,
{
    reveal_strlit("/");
    reveal_strlit(".var/app");
    reveal_strlit("/.var/app/");
    reveal_strlit("cache");
    reveal_strlit("/cache");
    assert("/"@ =~= seq!['/']);
    let dir = ctx.home@ + "/"@ + ".var/app"@;
    assert(paths::joined(ctx.home@, ".var/app"@) =~= dir);
    assert(dir.last() == 'p');
    paths::law_a_child_adds_its_name(dir, name);
    let app = paths::child(dir, name);
    assert(app.last() == name.last());
    assert(name.last() != '/') by {
        if name.last() == '/' {
            assert(name[name.len() - 1] == '/');
            assert(name.contains('/'));
        }
    }
    assert(paths::joined(app, "cache"@) =~= app + "/"@ + "cache"@);
    assert("/.var/app/"@ =~= "/"@ + ".var/app"@ + "/"@);
    assert("/cache"@ =~= "/"@ + "cache"@);
    assert(app + "/"@ + "cache"@ =~= ctx.home@ + "/.var/app/"@ + name + "/cache"@);
}

/// Every flatpak app that has a cache directory is offered, and nothing else.
pub proof fn law_app_caches_that_are_there_are_offered(
    names: Seq<Seq<char>>,
    n: int,
    ctx: &Ctx,
    host: &Host,
)
    requires
        0 <= n <= names.len(),
        forall|i: int| 0 <= i < names.len() ==> paths::entry_name(#[trigger] names[i]),
        ctx.home@.len() > 0,
        ctx.home@.last() != '/',
    ensures
        order::stands_for(
            app_caches(names, n, ctx, host),
            names,
            n,
            |name: Seq<char>|
                host.found(ctx.home@ + "/.var/app/"@ + name + "/cache"@) is Some,
            |c: CandidateModel, name: Seq<char>| offers_app_cache(c, name, ctx),
        ),
    decreases n,
{
    let wanted = |name: Seq<char>|
        host.found(ctx.home@ + "/.var/app/"@ + name + "/cache"@) is Some;
    let fits = |c: CandidateModel, name: Seq<char>| offers_app_cache(c, name, ctx);
    let list = app_caches(names, n, ctx, host);
    if n > 0 {
        law_app_caches_that_are_there_are_offered(names, n - 1, ctx, host);
        let before = app_caches(names, n - 1, ctx, host);
        let name = names[n - 1];
        lemma_app_cache_dir(ctx, name);
        let c = app_cache(ctx, name);
        assert(fits(c, name));
        if wanted(name) {
            order::lemma_stands_for_more(before, names, n, wanted, fits, c);
        } else {
            order::lemma_stands_for_same(before, names, n, wanted, fits);
        }
    } else {
        order::lemma_stands_for_none(list, names, wanted, fits);
    }
}

/// The tool is podman where there is one.
pub proof fn law_podman_comes_first(ctx: &Ctx, host: &Host)
    ensures
        host::available("podman"@, ctx, host) ==> tool(ctx, host) == "podman"@,
        !host::available("podman"@, ctx, host) ==> tool(ctx, host) == "docker"@,
{
}

/// The lines of an image list, each with id, repository and size.
pub open spec fn image_lines(list: Seq<(Seq<char>, Seq<char>, Seq<char>)>) -> Seq<Seq<char>> {
    Seq::new(list.len(), |i: int| list[i].0 + seq![' '] + (list[i].1 + seq![' '] + list[i].2))
}

/// The lines of a container list, each with id and name.
pub open spec fn container_lines(list: Seq<(Seq<char>, Seq<char>)>) -> Seq<Seq<char>> {
    Seq::new(list.len(), |i: int| list[i].0 + seq![' '] + list[i].1)
}

/// Every dangling image is offered with its size, and every stopped
/// container, by id and name and not selected; first the images.
pub proof fn law_what_the_tool_lists_is_offered(
    log: Seq<Exchange>,
    start: int,
    images: Seq<(Seq<char>, Seq<char>, Seq<char>)>,
    stopped: Seq<(Seq<char>, Seq<char>)>,
    i: int,
)
    requires
        log[start].reply is Ok,
        text::lines(log[start].reply->Ok_0.stdout) == image_lines(images),
        log[start + 1].reply is Ok,
        text::lines(log[start + 1].reply->Ok_0.stdout) == container_lines(stopped),
        forall|k: int|
            0 <= k < images.len() ==> !(#[trigger] images[k]).0.contains(' ')
                && !images[k].1.contains(' '),
        forall|k: int| 0 <= k < stopped.len() ==> !(#[trigger] stopped[k]).0.contains(' '),
    ensures
        ({
            let found = prune_found(log, start);
            &&& found.len() == images.len() + stopped.len()
            &&& 0 <= i < images.len() ==> {
                &&& found[i].label == "image "@ + images[i].1 + " ("@ + images[i].0 + ")"@
                &&& util::human_size(images[i].2) is Some ==> found[i].bytes == util::human_size(
                    images[i].2,
                )->0 as u64
                &&& found[i].path is None && !found[i].selectable
            }
            &&& 0 <= i < stopped.len() ==> {
                let c = found[images.len() + i];
                &&& c.label == "container "@ + stopped[i].1 + " ("@ + stopped[i].0 + ")"@
                &&& c.path is None && !c.selectable
            }
        }),
{
    lemma_images_listed(images, images.len() as int);
    lemma_containers_listed(stopped, stopped.len() as int);
    if 0 <= i < images.len() {
        lemma_image_line(images[i]);
    }
    if 0 <= i < stopped.len() {
        lemma_container_line(stopped[i]);
    }
}

proof fn lemma_image_line(x: (Seq<char>, Seq<char>, Seq<char>))
    requires
        !x.0.contains(' '),
        !x.1.contains(' '),
    ensures
        ({
            let c = image_on(x.0 + seq![' '] + (x.1 + seq![' '] + x.2));
            &&& c is Some
            &&& c->0.label == "image "@ + x.1 + " ("@ + x.0 + ")"@
            &&& util::human_size(x.2) is Some ==> c->0.bytes == util::human_size(x.2)->0 as u64
            &&& c->0.path is None && !c->0.selectable
        }),
{
    reveal_strlit(" ");
    assert(" "@ =~= seq![' ']);
    text::law_halves_at_the_first(x.0, ' ', x.1 + seq![' '] + x.2);
    text::law_halves_at_the_first(x.1, ' ', x.2);
}

proof fn lemma_container_line(x: (Seq<char>, Seq<char>))
    requires
        !x.0.contains(' '),
    ensures
        ({
            let c = container_on(x.0 + seq![' '] + x.1);
            &&& c is Some
            &&& c->0.label == "container "@ + x.1 + " ("@ + x.0 + ")"@
            &&& c->0.path is None && !c->0.selectable
        }),
{
    reveal_strlit(" ");
    assert(" "@ =~= seq![' ']);
    text::law_halves_at_the_first(x.0, ' ', x.1);
}

proof fn lemma_images_listed(list: Seq<(Seq<char>, Seq<char>, Seq<char>)>, n: int)
    requires
        0 <= n <= list.len(),
        forall|k: int|
            0 <= k < list.len() ==> !(#[trigger] list[k]).0.contains(' ')
                && !list[k].1.contains(' '),
    ensures
        images_in(image_lines(list), n).len() == n,
        forall|k: int|
            0 <= k < n ==> Some(#[trigger] images_in(image_lines(list), n)[k]) == image_on(
                image_lines(list)[k],
            ),
    decreases n,
{
    if n > 0 {
        lemma_images_listed(list, n - 1);
        lemma_image_line(list[n - 1]);
    }
}

proof fn lemma_containers_listed(list: Seq<(Seq<char>, Seq<char>)>, n: int)
    requires
        0 <= n <= list.len(),
        forall|k: int| 0 <= k < list.len() ==> !(#[trigger] list[k]).0.contains(' '),
    ensures
        containers_in(container_lines(list), n).len() == n,
        forall|k: int|
            0 <= k < n ==> Some(#[trigger] containers_in(container_lines(list), n)[k])
                == container_on(container_lines(list)[k]),
    decreases n,
{
    if n > 0 {
        lemma_containers_listed(list, n - 1);
        lemma_container_line(list[n - 1]);
    }
}

/// What a command will do is shown as one candidate, without a path of its
/// own, that is ticked from the start only where that is Safe.
pub proof fn law_a_command_is_one_candidate(label: Seq<char>, risk: Risk)
    ensures
        ({
            let list = informational(label, risk);
            &&& list.len() == 1
            &&& list[0].path is None
            &&& list[0].label == label
            &&& list[0].bytes == 0
            &&& risk == Risk::Safe ==> list[0].selectable
            &&& risk == Risk::Moderate || risk == Risk::Risky ==> !list[0].selectable
        }),
{
}

/// Images are asked for where nothing refers to them any more, and containers
/// where they have ended.
pub proof fn law_only_what_is_left_over_is_asked_for(tool: Seq<char>)
    ensures
        images_argv(tool) == seq![tool].push("images"@).push("-f"@).push("dangling=true"@).push(
            "--format"@,
        ).push("{{.ID}} {{.Repository}} {{.Size}}"@),
        ps_argv(tool) == seq![tool].push("ps"@).push("-a"@).push("--filter"@).push(
            "status=exited"@,
        ).push("--format"@).push("{{.ID}} {{.Names}}"@),
{
    assert(images_argv(tool) =~= seq![tool].push("images"@).push("-f"@).push(
        "dangling=true"@,
    ).push("--format"@).push("{{.ID}} {{.Repository}} {{.Size}}"@));
    assert(ps_argv(tool) =~= seq![tool].push("ps"@).push("-a"@).push("--filter"@).push(
        "status=exited"@,
    ).push("--format"@).push("{{.ID}} {{.Names}}"@));
}

} // verus!

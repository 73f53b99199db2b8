//! The tasks of `badger optimize`. Every task is an action with no deletable
//! candidate of its own: one informational candidate that describes what the
//! task does, and commands that do it. They are not part of the registry of
//! `badger clean`: they never delete a path, so they have no business in the
//! privileged helper's allowlist.
//!
//! Deliberately left out: regenerating the initramfs (destructive if it goes
//! wrong, and pacman hooks already do it), sysctl tuning (irreversible and
//! specific to a machine) and freeing the page cache (the kernel reclaims it
//! on demand).

use vstd::prelude::*;

use crate::ctx::Ctx;
use crate::host;
use crate::host::{command_exists, Host};
use crate::item::{candidates, Candidate, Risk};
use crate::paths;
use crate::rules::{
    cmds, models, strs0, strs3, Action, Applicability, ApplicabilityModel, CmdModel, CmdSpec,
    Commands, Condition, Detector, DetectorModel, Finder, Rule, RuleModel,
};
use crate::rules::moderate::{inform, informational, one_command, single};
use crate::text;
use crate::text::{concat2, list1, list2, list3, list4, list5};

verus! {

broadcast use vstd::seq::group_seq_axioms;

pub const FSTRIM_NOTES: &'static str =
    "Discards unused blocks on every mounted, trim-capable filesystem. Most Arch installs already run this weekly via `fstrim.timer` — this is a manual top-up, not a substitute for it.";

pub const RESET_FAILED_NOTES: &'static str =
    "Clears the failed-unit counters systemd keeps for both the system and user managers. Purely cosmetic bookkeeping — does not restart, stop, or otherwise touch any unit.";

pub const FONT_CACHE_NOTES: &'static str =
    "Rescans installed fonts so new/removed fonts show up correctly.";

pub const DESKTOP_DB_NOTES: &'static str =
    "Keeps app launchers, file-manager icons, and file-type associations in sync after installing/removing desktop apps. Each sub-command only runs if it's installed (and, for the icon/MIME caches, only if the matching `~/.local/share` directory already exists).";

pub const PACMAN_FILES_NOTES: &'static str =
    "`pacman -Fy` downloads the full file-list database (used by `pacman -F` to find \"which package owns this file\"). Opt-in: it's a sizeable download most people never need.";

pub const MIRRORS_NOTES: &'static str =
    "Re-ranks pacman's mirror list for speed, via whichever of cachyos-rate-mirrors / rate-mirrors / reflector is installed (in that preference order), or the tool named in `optimize.mirror_tool` if set. Opt-in: it rewrites /etc/pacman.d/mirrorlist and takes a while to run. Set `optimize.mirror_tool = \"off\"` to hide it entirely.";

pub const UPDATEDB_NOTES: &'static str =
    "Refreshes the mlocate/plocate database `locate` searches against.";

/// A task: commands, and a candidate that describes them.
pub open spec fn task(
    id: Seq<char>,
    title: Seq<char>,
    risk: Risk,
    requires_sudo: bool,
    applicable: ApplicabilityModel,
    finder: Finder,
    commands: Commands,
    notes: Seq<char>,
) -> RuleModel {
    RuleModel {
        id,
        title,
        risk,
        requires_sudo,
        applicable,
        allowed_prefixes: Seq::empty(),
        detector: DetectorModel::Fn(finder),
        action: Action::Cmd(commands),
        notes,
    }
}

fn rule(
    id: &'static str,
    title: &'static str,
    risk: Risk,
    requires_sudo: bool,
    applicable: Applicability,
    finder: Finder,
    commands: Commands,
    notes: &'static str,
) -> (r: Rule)
    ensures
        r@ == task(
            id@,
            title@,
            risk,
            requires_sudo,
            applicable@,
            finder,
            commands,
            notes@,
        ),
{
    Rule {
        id,
        title,
        risk,
        requires_sudo,
        applicable,
        allowed_prefixes: strs0(),
        detector: Detector::Fn(finder),
        action: Action::Cmd(commands),
        notes,
    }
}

pub open spec fn table() -> Seq<RuleModel> {
    seq![
        task(
            "optimize.fstrim"@,
            "Trim SSD free space"@,
            Risk::Safe,
            true,
            ApplicabilityModel::Always,
            Finder::Fstrim,
            Commands::Fstrim,
            FSTRIM_NOTES@,
        ),
        task(
            "optimize.reset_failed"@,
            "Reset failed systemd units"@,
            Risk::Safe,
            true,
            ApplicabilityModel::Always,
            Finder::ResetFailed,
            Commands::ResetFailed,
            RESET_FAILED_NOTES@,
        ),
        task(
            "optimize.font_cache"@,
            "Rebuild font cache"@,
            Risk::Safe,
            false,
            ApplicabilityModel::CommandExists("fc-cache"@),
            Finder::FontCache,
            Commands::FontCache,
            FONT_CACHE_NOTES@,
        ),
        task(
            "optimize.desktop_db"@,
            "Refresh desktop entry, icon, and MIME databases"@,
            Risk::Safe,
            false,
            ApplicabilityModel::CommandExistsAny(
                seq![
                    "update-desktop-database"@,
                    "gtk-update-icon-cache"@,
                    "update-mime-database"@,
                ],
            ),
            Finder::DesktopDb,
            Commands::DesktopDb,
            DESKTOP_DB_NOTES@,
        ),
        task(
            "optimize.pacman_files"@,
            "Refresh pacman file database"@,
            Risk::Moderate,
            true,
            ApplicabilityModel::CommandExists("pacman"@),
            Finder::PacmanFiles,
            Commands::PacmanFiles,
            PACMAN_FILES_NOTES@,
        ),
        task(
            "optimize.mirrors"@,
            "Refresh mirror list"@,
            Risk::Moderate,
            true,
            ApplicabilityModel::Fn(Condition::Mirrors),
            Finder::Mirrors,
            Commands::Mirrors,
            MIRRORS_NOTES@,
        ),
        task(
            "optimize.updatedb"@,
            "Update locate database"@,
            Risk::Safe,
            true,
            ApplicabilityModel::CommandExists("updatedb"@),
            Finder::Updatedb,
            Commands::Updatedb,
            UPDATEDB_NOTES@,
        ),
    ]
}

pub fn rules() -> (r: Vec<Rule>)
    ensures
        models(r@) == table(),
{
    let r = vec![
        rule(
            "optimize.fstrim",
            "Trim SSD free space",
            Risk::Safe,
            true,
            Applicability::Always,
            Finder::Fstrim,
            Commands::Fstrim,
            FSTRIM_NOTES,
        ),
        rule(
            "optimize.reset_failed",
            "Reset failed systemd units",
            Risk::Safe,
            true,
            Applicability::Always,
            Finder::ResetFailed,
            Commands::ResetFailed,
            RESET_FAILED_NOTES,
        ),
        rule(
            "optimize.font_cache",
            "Rebuild font cache",
            Risk::Safe,
            false,
            Applicability::CommandExists("fc-cache"),
            Finder::FontCache,
            Commands::FontCache,
            FONT_CACHE_NOTES,
        ),
        rule(
            "optimize.desktop_db",
            "Refresh desktop entry, icon, and MIME databases",
            Risk::Safe,
            false,
            Applicability::CommandExistsAny(
                strs3("update-desktop-database", "gtk-update-icon-cache", "update-mime-database"),
            ),
            Finder::DesktopDb,
            Commands::DesktopDb,
            DESKTOP_DB_NOTES,
        ),
        rule(
            "optimize.pacman_files",
            "Refresh pacman file database",
            Risk::Moderate,
            true,
            Applicability::CommandExists("pacman"),
            Finder::PacmanFiles,
            Commands::PacmanFiles,
            PACMAN_FILES_NOTES,
        ),
        rule(
            "optimize.mirrors",
            "Refresh mirror list",
            Risk::Moderate,
            true,
            Applicability::Fn(Condition::Mirrors),
            Finder::Mirrors,
            Commands::Mirrors,
            MIRRORS_NOTES,
        ),
        rule(
            "optimize.updatedb",
            "Update locate database",
            Risk::Safe,
            true,
            Applicability::CommandExists("updatedb"),
            Finder::Updatedb,
            Commands::Updatedb,
            UPDATEDB_NOTES,
        ),
    ];
    assert(models(r@) =~= table());
    r
}

pub fn fstrim_detector() -> (r: Vec<Candidate>)
    ensures
        candidates(r@) == informational(
            "Trim free space on all mounted filesystems (fstrim -av)"@,
            Risk::Safe,
        ),
{
    inform("Trim free space on all mounted filesystems (fstrim -av)".to_owned(), Risk::Safe)
}

pub fn fstrim_cmd() -> (r: Vec<CmdSpec>)
    ensures
        cmds(r@) == one_command(seq!["fstrim"@, "-av"@], true, "Trim SSD free space"@),
{
    single(list2("fstrim", "-av"), true, "Trim SSD free space".to_owned())
}

pub fn reset_failed_detector() -> (r: Vec<Candidate>)
    ensures
        candidates(r@) == informational(
            "Clear failed-unit counters (system + user)"@,
            Risk::Safe,
        ),
{
    inform("Clear failed-unit counters (system + user)".to_owned(), Risk::Safe)
}

pub open spec fn reset_failed_commands() -> Seq<CmdModel> {
    seq![
        (CmdModel {
            argv: seq!["systemctl"@, "reset-failed"@],
            sudo: true,
            label: "Reset failed system units"@,
        }),
        (CmdModel {
            argv: seq!["systemctl"@, "--user"@, "reset-failed"@],
            sudo: false,
            label: "Reset failed user units"@,
        }),
    ]
}

/// Only the system scope needs root privilege.
pub fn reset_failed_cmd() -> (r: Vec<CmdSpec>)
    ensures
        cmds(r@) == reset_failed_commands(),
{
    let out = vec![
        CmdSpec {
            argv: list2("systemctl", "reset-failed"),
            sudo: true,
            label: "Reset failed system units".to_owned(),
        },
        CmdSpec {
            argv: list3("systemctl", "--user", "reset-failed"),
            sudo: false,
            label: "Reset failed user units".to_owned(),
        },
    ];
    assert(cmds(out@) =~= reset_failed_commands());
    out
}

pub fn font_cache_detector() -> (r: Vec<Candidate>)
    ensures
        candidates(r@) == informational(
            "Rebuild the fontconfig cache (fc-cache -f)"@,
            Risk::Safe,
        ),
{
    inform("Rebuild the fontconfig cache (fc-cache -f)".to_owned(), Risk::Safe)
}

pub fn font_cache_cmd() -> (r: Vec<CmdSpec>)
    ensures
        cmds(r@) == one_command(seq!["fc-cache"@, "-f"@], false, "Rebuild font cache"@),
{
    single(list2("fc-cache", "-f"), false, "Rebuild font cache".to_owned())
}

pub fn desktop_db_detector() -> (r: Vec<Candidate>)
    ensures
        candidates(r@) == informational(
            "Refresh desktop entry, icon, and MIME databases"@,
            Risk::Safe,
        ),
{
    inform("Refresh desktop entry, icon, and MIME databases".to_owned(), Risk::Safe)
}

/// Each command on its own condition: its binary must be installed and, for
/// the icon and MIME caches, which fail on a missing directory, that
/// directory must be there.
pub open spec fn desktop_db_commands(ctx: &Ctx, host: &Host) -> Seq<CmdModel> {
    let applications = paths::joined(ctx.home@, ".local/share/applications"@);
    let hicolor = paths::joined(ctx.home@, ".local/share/icons/hicolor"@);
    let mime = paths::joined(ctx.home@, ".local/share/mime"@);
    (if host::available("update-desktop-database"@, ctx, host) {
        one_command(
            seq!["update-desktop-database"@, applications],
            false,
            "Refresh desktop entry database"@,
        )
    } else {
        Seq::empty()
    }) + (if host::available("gtk-update-icon-cache"@, ctx, host) && host.is_dir(hicolor) {
        one_command(
            seq!["gtk-update-icon-cache"@, "-f"@, "-t"@, hicolor],
            false,
            "Refresh hicolor icon cache"@,
        )
    } else {
        Seq::empty()
    }) + (if host::available("update-mime-database"@, ctx, host) && host.is_dir(mime) {
        one_command(seq!["update-mime-database"@, mime], false, "Refresh MIME database"@)
    } else {
        Seq::empty()
    })
}

pub fn desktop_db_cmd(ctx: &Ctx, host: &Host) -> (r: Vec<CmdSpec>)
    ensures
        cmds(r@) == desktop_db_commands(ctx, host),
{
    let mut out: Vec<CmdSpec> = Vec::new();
    if command_exists("update-desktop-database", ctx, host) {
        let dir = paths::join(ctx.home.as_str(), ".local/share/applications");
        out.push(
            CmdSpec {
                argv: list2("update-desktop-database", dir.as_str()),
                sudo: false,
                label: "Refresh desktop entry database".to_owned(),
            },
        );
    }
    let hicolor = paths::join(ctx.home.as_str(), ".local/share/icons/hicolor");
    if command_exists("gtk-update-icon-cache", ctx, host) && host.leads_to_dir(hicolor.as_str()) {
        out.push(
            CmdSpec {
                argv: list4("gtk-update-icon-cache", "-f", "-t", hicolor.as_str()),
                sudo: false,
                label: "Refresh hicolor icon cache".to_owned(),
            },
        );
    }
    let mime = paths::join(ctx.home.as_str(), ".local/share/mime");
    if command_exists("update-mime-database", ctx, host) && host.leads_to_dir(mime.as_str()) {
        out.push(
            CmdSpec {
                argv: list2("update-mime-database", mime.as_str()),
                sudo: false,
                label: "Refresh MIME database".to_owned(),
            },
        );
    }
    assert(cmds(out@) =~= desktop_db_commands(ctx, host));
    out
}

pub fn pacman_files_detector() -> (r: Vec<Candidate>)
    ensures
        candidates(r@) == informational(
            "Refresh pacman's file-list database (pacman -Fy) — large download"@,
            Risk::Moderate,
        ),
{
    inform(
        "Refresh pacman's file-list database (pacman -Fy) — large download".to_owned(),
        Risk::Moderate,
    )
}

pub fn pacman_files_cmd() -> (r: Vec<CmdSpec>)
    ensures
        cmds(r@) == one_command(seq!["pacman"@, "-Fy"@], true, "Refresh pacman file database"@),
{
    single(list2("pacman", "-Fy"), true, "Refresh pacman file database".to_owned())
}

/// The mirror tool in use. `off` in the settings disables the task; the name
/// of one of the tools pins that tool; anything else takes the first that is
/// installed. `None` when disabled or when the tool is not installed.
pub open spec fn chosen_mirror_tool(ctx: &Ctx, host: &Host) -> Option<Seq<char>> {
    let configured = ctx.config.optimize.mirror_tool@;
    if configured == "off"@ {
        None
    } else if configured == "cachyos-rate-mirrors"@ || configured == "rate-mirrors"@ || configured
        == "reflector"@ {
        if host::available(configured, ctx, host) {
            Some(configured)
        } else {
            None
        }
    } else if host::available("cachyos-rate-mirrors"@, ctx, host) {
        Some("cachyos-rate-mirrors"@)
    } else if host::available("rate-mirrors"@, ctx, host) {
        Some("rate-mirrors"@)
    } else if host::available("reflector"@, ctx, host) {
        Some("reflector"@)
    } else {
        None
    }
}

pub open spec fn opt_str(o: Option<&'static str>) -> Option<Seq<char>> {
    match o {
        Some(s) => Some(s@),
        None => None,
    }
}

fn pinned(name: &'static str, ctx: &Ctx, host: &Host) -> (r: Option<&'static str>)
    ensures
        opt_str(r) == (if host::available(name@, ctx, host) {
            Some(name@)
        } else {
            None
        }),
{
    if command_exists(name, ctx, host) {
        Some(name)
    } else {
        None
    }
}

pub fn mirror_tool(ctx: &Ctx, host: &Host) -> (r: Option<&'static str>)
    ensures
        opt_str(r) == chosen_mirror_tool(ctx, host),
{
    let configured = ctx.config.optimize.mirror_tool.as_str();
    if text::same(configured, "off") {
        None
    } else if text::same(configured, "cachyos-rate-mirrors") {
        pinned("cachyos-rate-mirrors", ctx, host)
    } else if text::same(configured, "rate-mirrors") {
        pinned("rate-mirrors", ctx, host)
    } else if text::same(configured, "reflector") {
        pinned("reflector", ctx, host)
    } else if command_exists("cachyos-rate-mirrors", ctx, host) {
        Some("cachyos-rate-mirrors")
    } else if command_exists("rate-mirrors", ctx, host) {
        Some("rate-mirrors")
    } else if command_exists("reflector", ctx, host) {
        Some("reflector")
    } else {
        None
    }
}

pub fn mirrors_applicable(ctx: &Ctx, host: &Host) -> (r: bool)
    ensures
        r == (chosen_mirror_tool(ctx, host) is Some),
{
    mirror_tool(ctx, host).is_some()
}

/// The tool that the task names and runs.
pub open spec fn mirror_tool_or_reflector(ctx: &Ctx, host: &Host) -> Seq<char> {
    match chosen_mirror_tool(ctx, host) {
        Some(name) => name,
        None => "reflector"@,
    }
}

fn tool_or_reflector(ctx: &Ctx, host: &Host) -> (r: &'static str)
    ensures
        r@ == mirror_tool_or_reflector(ctx, host),
{
    match mirror_tool(ctx, host) {
        Some(name) => name,
        None => "reflector",
    }
}

pub fn mirrors_detector(ctx: &Ctx, host: &Host) -> (r: Vec<Candidate>)
    ensures
        candidates(r@) == informational(
            "Refresh mirror list via "@ + mirror_tool_or_reflector(ctx, host),
            Risk::Moderate,
        ),
{
    inform(concat2("Refresh mirror list via ", tool_or_reflector(ctx, host)), Risk::Moderate)
}

pub open spec fn mirrors_argv(tool: Seq<char>) -> Seq<Seq<char>> {
    if tool == "reflector"@ {
        seq!["reflector"@, "--latest"@, "20"@, "--protocol"@, "https"@] + seq![
            "--sort"@,
            "rate"@,
            "--save"@,
            "/etc/pacman.d/mirrorlist"@,
        ]
    } else {
        seq![tool]
    }
}

pub fn mirrors_cmd(ctx: &Ctx, host: &Host) -> (r: Vec<CmdSpec>)
    ensures
        cmds(r@) == one_command(
            mirrors_argv(mirror_tool_or_reflector(ctx, host)),
            true,
            "Refresh mirror list via "@ + mirror_tool_or_reflector(ctx, host),
        ),
{
    let tool = tool_or_reflector(ctx, host);
    let argv = if text::same(tool, "reflector") {
        let mut argv = list5("reflector", "--latest", "20", "--protocol", "https");
        let ghost head = argv@;
        let mut rest = list4("--sort", "rate", "--save", "/etc/pacman.d/mirrorlist");
        let ghost tail = rest@;
        argv.append(&mut rest);
        assert(text::texts(argv@) =~= text::texts(head) + text::texts(tail));
        argv
    } else {
        list1(tool)
    };
    single(argv, true, concat2("Refresh mirror list via ", tool))
}

pub fn updatedb_detector() -> (r: Vec<Candidate>)
    ensures
        candidates(r@) == informational(
            "Update the mlocate/plocate search database (updatedb)"@,
            Risk::Safe,
        ),
{
    inform("Update the mlocate/plocate search database (updatedb)".to_owned(), Risk::Safe)
}

pub fn updatedb_cmd() -> (r: Vec<CmdSpec>)
    ensures
        cmds(r@) == one_command(seq!["updatedb"@], true, "Update locate database"@),
{
    single(list1("updatedb"), true, "Update locate database".to_owned())
}

/// No task deletes a path, and none may.
pub proof fn law_tasks_delete_no_path(i: int)
    requires
        0 <= i < table().len(),
    ensures
        table()[i].action is Cmd,
        table()[i].allowed_prefixes.len() == 0,
{
}

// ------------------------------------------------------------------------ laws


/// A tool that the settings pin is taken where it is installed, and no other;
/// `off` takes none; otherwise the first that is installed, in this order.
pub proof fn law_the_mirror_tool_is_the_one_wanted(ctx: &Ctx, host: &Host)
    ensures
        ({
            let want = ctx.config.optimize.mirror_tool@;
            let a = "cachyos-rate-mirrors"@;
            let b = "rate-mirrors"@;
            let c = "reflector"@;
            let chosen = chosen_mirror_tool(ctx, host);
            let pinned = want == a || want == b || want == c;
            &&& want == "off"@ ==> chosen is None
            &&& pinned ==> (chosen == Some(want) <==> host::available(want, ctx, host))
            &&& pinned ==> chosen is None || chosen == Some(want)
            &&& want != "off"@ && !pinned ==> {
                &&& chosen == Some(a) <==> host::available(a, ctx, host)
                &&& chosen == Some(b) <==> host::available(b, ctx, host) && !host::available(
                    a,
                    ctx,
                    host,
                )
                &&& chosen == Some(c) <==> host::available(c, ctx, host) && !host::available(
                    a,
                    ctx,
                    host,
                ) && !host::available(b, ctx, host)
                &&& chosen is Some ==> chosen == Some(a) || chosen == Some(b) || chosen == Some(c)
            }
        }),
{
    reveal_strlit("off");
    reveal_strlit("cachyos-rate-mirrors");
    reveal_strlit("rate-mirrors");
    reveal_strlit("reflector");
    assert("off"@.len() == 3 && "cachyos-rate-mirrors"@.len() == 20);
    assert("rate-mirrors"@.len() == 12 && "reflector"@.len() == 9);
}

/// What the mirror task runs: the tool alone, but for reflector, which is
/// told where to write.
pub proof fn law_the_mirror_list_is_written(tool: Seq<char>)
    ensures
        mirrors_argv(tool)[0] == tool,
        tool != "reflector"@ ==> mirrors_argv(tool).len() == 1,
        tool == "reflector"@ ==> {
            &&& mirrors_argv(tool).contains("--save"@)
            &&& mirrors_argv(tool).last() == "/etc/pacman.d/mirrorlist"@
            &&& mirrors_argv(tool)[mirrors_argv(tool).len() - 2] == "--save"@
        },
{
    if tool == "reflector"@ {
        assert(mirrors_argv(tool)[7] == "--save"@);
    }
}

/// The desktop databases are refreshed by those of the tools that are
/// installed, each on its own directory below the home directory; the icon
/// and MIME caches only where that directory is there.
pub proof fn law_databases_are_refreshed_where_they_can_be(ctx: &Ctx, host: &Host, i: int)
    requires
        ctx.home@.len() > 0,
        ctx.home@.last() != '/',
    ensures
        ({
            let list = desktop_db_commands(ctx, host);
            let apps = ctx.home@ + "/.local/share/applications"@;
            let icons = ctx.home@ + "/.local/share/icons/hicolor"@;
            let mime = ctx.home@ + "/.local/share/mime"@;
            let a = seq!["update-desktop-database"@, apps];
            let b = seq!["gtk-update-icon-cache"@, "-f"@, "-t"@, icons];
            let c = seq!["update-mime-database"@, mime];
            &&& 0 <= i < list.len() ==> !list[i].sudo && (list[i].argv == a || list[i].argv == b
                || list[i].argv == c)
            &&& (exists|k: int| 0 <= k < list.len() && (#[trigger] list[k]).argv == a)
                <==> host::available("update-desktop-database"@, ctx, host)
            &&& (exists|k: int| 0 <= k < list.len() && (#[trigger] list[k]).argv == b)
                <==> host::available("gtk-update-icon-cache"@, ctx, host) && host.is_dir(icons)
            &&& (exists|k: int| 0 <= k < list.len() && (#[trigger] list[k]).argv == c)
                <==> host::available("update-mime-database"@, ctx, host) && host.is_dir(mime)
        }),
{
    reveal_strlit("/");
    reveal_strlit(".local/share/applications");
    reveal_strlit("/.local/share/applications");
    reveal_strlit(".local/share/icons/hicolor");
    reveal_strlit("/.local/share/icons/hicolor");
    reveal_strlit(".local/share/mime");
    reveal_strlit("/.local/share/mime");
    reveal_strlit("update-desktop-database");
    reveal_strlit("gtk-update-icon-cache");
    reveal_strlit("update-mime-database");
    let home = ctx.home@;
    assert(paths::joined(home, ".local/share/applications"@) =~= home
        + "/.local/share/applications"@);
    assert(paths::joined(home, ".local/share/icons/hicolor"@) =~= home
        + "/.local/share/icons/hicolor"@);
    assert(paths::joined(home, ".local/share/mime"@) =~= home + "/.local/share/mime"@);
    let list = desktop_db_commands(ctx, host);
    let one = host::available("update-desktop-database"@, ctx, host);
    let two = host::available("gtk-update-icon-cache"@, ctx, host) && host.is_dir(
        home + "/.local/share/icons/hicolor"@,
    );
    let three = host::available("update-mime-database"@, ctx, host) && host.is_dir(
        home + "/.local/share/mime"@,
    );
    let a = seq!["update-desktop-database"@, home + "/.local/share/applications"@];
    let b = seq!["gtk-update-icon-cache"@, "-f"@, "-t"@, home + "/.local/share/icons/hicolor"@];
    let c = seq!["update-mime-database"@, home + "/.local/share/mime"@];
    assert(a.len() == 2 && b.len() == 4 && c.len() == 2);
    assert(a[0] == "update-desktop-database"@ && c[0] == "update-mime-database"@);
    assert("update-desktop-database"@.len() != "update-mime-database"@.len());
    assert(a != c && a != b && b != c);
    let x: int = if one {
        1
    } else {
        0
    };
    let y: int = if two {
        1
    } else {
        0
    };
    if one {
        assert(list[0].argv == a);
    }
    if two {
        assert(list[x].argv == b);
    }
    if three {
        assert(list[x + y].argv == c);
    }
}

} // verus!

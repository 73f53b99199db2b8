//! The rule registry: what can be cleaned, how it is found, what is done
//! about it.

pub mod command;
pub mod dev;
pub mod leftovers;
pub mod moderate;
pub mod optimize;
pub mod snap;
pub mod snapshots;
pub mod user;

use vstd::prelude::*;

use crate::ctx::Ctx;
use crate::item::Risk;
use crate::paths;
use crate::text;

verus! {

/// A condition on more than one command or path.
#[derive(Debug, Clone, Copy, PartialEq, Eq, Structural)]
pub enum Condition {
    /// Some mirror tool is installed and the settings allow it.
    Mirrors,
    /// `snapper` is installed and the settings let it be managed.
    Snapper,
}

/// Whether a rule even makes sense to run in the current environment.
#[derive(Debug)]
pub enum Applicability {
    Always,
    /// The name must be found on `PATH` (or in `Ctx::available_commands` when
    /// sandboxed).
    CommandExists(&'static str),
    /// At least one of these commands must be found (e.g. `podman` or
    /// `docker`); the rule itself decides which one to prefer.
    CommandExistsAny(Vec<&'static str>),
    /// `~`-prefixed or root-relative path that must exist.
    PathExists(&'static str),
    Fn(Condition),
}

/// Candidates that need custom logic (age, exclusions, processes, commands).
#[derive(Debug, Clone, Copy, PartialEq, Eq, Structural)]
pub enum Finder {
    CacheApps,
    Trash,
    PacmanCache,
    Journald,
    PacmanOrphans,
    FlatpakUnused,
    FlatpakAppCaches,
    ContainersPrune,
    OldRevisions,
    OrphanConfigs,
    Fstrim,
    ResetFailed,
    FontCache,
    DesktopDb,
    PacmanFiles,
    Mirrors,
    Updatedb,
}

/// Candidates found together with notes on what is not offered.
#[derive(Debug, Clone, Copy, PartialEq, Eq, Structural)]
pub enum NotingFinder {
    SnapperCleanup,
    SnapperManual,
}

/// How a rule finds its candidates.
#[derive(Debug)]
pub enum Detector {
    /// `~`-prefixed (ctx home) or root-relative (ctx root) path specs. A
    /// wildcard in the last path component expands against that directory's
    /// entries; a bare spec is a single candidate.
    Globs(Vec<&'static str>),
    Fn(Finder),
    FnWithSkips(NotingFinder),
}

/// Commands that do not depend on what is selected.
#[derive(Debug, Clone, Copy, PartialEq, Eq, Structural)]
pub enum Commands {
    PacmanCache,
    Journald,
    FlatpakUnused,
    Fstrim,
    ResetFailed,
    FontCache,
    DesktopDb,
    PacmanFiles,
    Mirrors,
    Updatedb,
}

/// Commands built from the selected candidates.
#[derive(Debug, Clone, Copy, PartialEq, Eq, Structural)]
pub enum SelectedCommands {
    PacmanOrphans,
    ContainersPrune,
    SnapperCleanup,
}

/// Commands built from the selected candidates, some of which may be refused.
#[derive(Debug, Clone, Copy, PartialEq, Eq, Structural)]
pub enum RefusingCommands {
    OldRevisions,
    SnapperManual,
}

/// What happens when a rule's selected candidates are executed.
#[derive(Debug, Clone, Copy, PartialEq, Eq, Structural)]
pub enum Action {
    /// Delete each selected candidate path directly.
    DeletePaths,
    /// Run external commands instead of deleting paths ourselves; the rule's
    /// candidates are informational sizing only.
    Cmd(Commands),
    /// Like `Cmd`, but the command is built from exactly the candidates the
    /// person selected in this group (e.g. `pacman -Rns <ticked packages>`).
    /// Never built from an empty selection.
    CmdSelected(SelectedCommands),
    /// Like `CmdSelected`, but part of the selection may be refused: each
    /// refusal is journaled as a `skipped: <label> — <reason>` outcome
    /// instead of running anything for it.
    CmdSelectedWithSkips(RefusingCommands),
}

#[derive(Debug, PartialEq)]
pub struct CmdSpec {
    pub argv: Vec<String>,
    pub sudo: bool,
    pub label: String,
}

/// A command to run, as a mathematical value.
pub struct CmdModel {
    pub argv: Seq<Seq<char>>,
    pub sudo: bool,
    pub label: Seq<char>,
}

impl View for CmdSpec {
    type V = CmdModel;

    open spec fn view(&self) -> CmdModel {
        CmdModel { argv: text::texts(self.argv@), sudo: self.sudo, label: self.label@ }
    }
}

impl Clone for CmdSpec {
    fn clone(&self) -> (r: Self)
        ensures
            r@ == self@,
    {
        CmdSpec { argv: text::copies(&self.argv), sudo: self.sudo, label: self.label.clone() }
    }
}

pub open spec fn cmds(v: Seq<CmdSpec>) -> Seq<CmdModel> {
    Seq::new(v.len(), |i: int| v[i]@)
}

#[derive(Debug)]
pub struct Rule {
    pub id: &'static str,
    pub title: &'static str,
    pub risk: Risk,
    pub requires_sudo: bool,
    pub applicable: Applicability,
    /// `~`/root-relative prefixes this rule is allowed to delete inside of.
    /// Unused by command rules, whose candidates are informational only.
    pub allowed_prefixes: Vec<&'static str>,
    pub detector: Detector,
    pub action: Action,
    pub notes: &'static str,
}

/// The texts of a list of fixed strings.
pub open spec fn strs(v: Seq<&'static str>) -> Seq<Seq<char>> {
    Seq::new(v.len(), |i: int| v[i]@)
}

pub enum ApplicabilityModel {
    Always,
    CommandExists(Seq<char>),
    CommandExistsAny(Seq<Seq<char>>),
    PathExists(Seq<char>),
    Fn(Condition),
}

pub enum DetectorModel {
    Globs(Seq<Seq<char>>),
    Fn(Finder),
    FnWithSkips(NotingFinder),
}

/// A rule as a mathematical value.
pub struct RuleModel {
    pub id: Seq<char>,
    pub title: Seq<char>,
    pub risk: Risk,
    pub requires_sudo: bool,
    pub applicable: ApplicabilityModel,
    pub allowed_prefixes: Seq<Seq<char>>,
    pub detector: DetectorModel,
    pub action: Action,
    pub notes: Seq<char>,
}

impl View for Applicability {
    type V = ApplicabilityModel;

    open spec fn view(&self) -> ApplicabilityModel {
        match self {
            Applicability::Always => ApplicabilityModel::Always,
            Applicability::CommandExists(name) => ApplicabilityModel::CommandExists(name@),
            Applicability::CommandExistsAny(names) => ApplicabilityModel::CommandExistsAny(
                strs(names@),
            ),
            Applicability::PathExists(spec_text) => ApplicabilityModel::PathExists(spec_text@),
            Applicability::Fn(condition) => ApplicabilityModel::Fn(*condition),
        }
    }
}

impl View for Detector {
    type V = DetectorModel;

    open spec fn view(&self) -> DetectorModel {
        match self {
            Detector::Globs(patterns) => DetectorModel::Globs(strs(patterns@)),
            Detector::Fn(finder) => DetectorModel::Fn(*finder),
            Detector::FnWithSkips(finder) => DetectorModel::FnWithSkips(*finder),
        }
    }
}

impl View for Rule {
    type V = RuleModel;

    open spec fn view(&self) -> RuleModel {
        RuleModel {
            id: self.id@,
            title: self.title@,
            risk: self.risk,
            requires_sudo: self.requires_sudo,
            applicable: self.applicable@,
            allowed_prefixes: strs(self.allowed_prefixes@),
            detector: self.detector@,
            action: self.action,
            notes: self.notes@,
        }
    }
}

pub open spec fn models(v: Seq<Rule>) -> Seq<RuleModel> {
    Seq::new(v.len(), |i: int| v[i]@)
}

pub fn strs0() -> (r: Vec<&'static str>)
    ensures
        strs(r@) == Seq::<Seq<char>>::empty(),
{
    let r: Vec<&'static str> = Vec::new();
    assert(strs(r@) =~= Seq::empty());
    r
}

pub fn strs1(a: &'static str) -> (r: Vec<&'static str>)
    ensures
        strs(r@) == seq![a@],
{
    let r = vec![a];
    assert(strs(r@) =~= seq![a@]);
    r
}

pub fn strs2(a: &'static str, b: &'static str) -> (r: Vec<&'static str>)
    ensures
        strs(r@) == seq![a@, b@],
{
    let r = vec![a, b];
    assert(strs(r@) =~= seq![a@, b@]);
    r
}

pub fn strs3(a: &'static str, b: &'static str, c: &'static str) -> (r: Vec<&'static str>)
    ensures
        strs(r@) == seq![a@, b@, c@],
{
    let r = vec![a, b, c];
    assert(strs(r@) =~= seq![a@, b@, c@]);
    r
}

/// A path spec as a path: `~` is the home directory, a leading slash the
/// root.
pub open spec fn expanded(spec_text: Seq<char>, root: Seq<char>, home: Seq<char>) -> Seq<char> {
    if text::starts_with(spec_text, "~/"@) {
        paths::joined(home, spec_text.skip(2))
    } else if spec_text == "~"@ {
        home
    } else if text::starts_with(spec_text, "/"@) {
        paths::joined(root, spec_text.skip(1))
    } else {
        spec_text
    }
}

/// Root-relative or `~`-relative path spec to a real path, given a `Ctx`.
pub fn expand_path_spec(spec_text: &str, ctx: &Ctx) -> (r: String)
    ensures
        r@ == expanded(spec_text@, ctx.root@, ctx.home@),
{
    expand_path_spec_parts(spec_text, ctx.root.as_str(), ctx.home.as_str())
}

/// Same as `expand_path_spec`, but for callers (like the privileged helper)
/// that have a root/home pair without a full `Ctx` to hand.
pub fn expand_path_spec_parts(spec_text: &str, root: &str, home: &str) -> (r: String)
    ensures
        r@ == expanded(spec_text@, root@, home@),
{
    proof {
        reveal_strlit("~/");
        reveal_strlit("/");
    }
    if let Some(rest) = text::cut_prefix(spec_text, "~/") {
        paths::join(home, rest.as_str())
    } else if text::same(spec_text, "~") {
        home.to_owned()
    } else if let Some(rest) = text::cut_prefix(spec_text, "/") {
        paths::join(root, rest.as_str())
    } else {
        spec_text.to_owned()
    }
}

/// The prefixes of a rule as paths.
pub open spec fn expanded_all(specs: Seq<Seq<char>>, root: Seq<char>, home: Seq<char>) -> Seq<
    Seq<char>,
> {
    Seq::new(specs.len(), |i: int| expanded(specs[i], root, home))
}

pub fn expand_all(specs: &Vec<&'static str>, root: &str, home: &str) -> (r: Vec<String>)
    ensures
        text::texts(r@) == expanded_all(strs(specs@), root@, home@),
{
    let mut out: Vec<String> = Vec::new();
    let mut i: usize = 0;
    while i < specs.len()
        invariant
            i <= specs.len(),
            out.len() == i,
            forall|k: int|
                0 <= k < i ==> (#[trigger] out@[k])@ == expanded(specs@[k]@, root@, home@),
        decreases specs.len() - i,
    {
        out.push(expand_path_spec_parts(specs[i], root, home));
        i += 1;
    }
    assert(text::texts(out@) =~= expanded_all(strs(specs@), root@, home@));
    out
}

/// The rules of `badger clean`; the guesses only if asked for.
pub open spec fn registry_table(experimental: bool) -> Seq<RuleModel> {
    user::table() + dev::table() + command::table() + moderate::table() + snap::table()
        + snapshots::table() + (if experimental {
        leftovers::table()
    } else {
        Seq::empty()
    })
}

pub fn registry(experimental: bool) -> (r: Vec<Rule>)
    ensures
        models(r@) == registry_table(experimental),
{
    let mut out = user::rules();
    let ghost a = out@;
    let mut more = dev::rules();
    let ghost b = more@;
    out.append(&mut more);
    let mut more = command::rules();
    let ghost c = more@;
    out.append(&mut more);
    let mut more = moderate::rules();
    let ghost d = more@;
    out.append(&mut more);
    let mut more = snap::rules();
    let ghost e = more@;
    out.append(&mut more);
    let mut more = snapshots::rules();
    let ghost f = more@;
    out.append(&mut more);
    assert(models(out@) =~= models(a) + models(b) + models(c) + models(d) + models(e) + models(
        f,
    ));
    if experimental {
        let ghost before = out@;
        let mut more = leftovers::rules();
        let ghost g = more@;
        out.append(&mut more);
        assert(models(out@) =~= models(before) + models(g));
    } else {
        assert(models(out@) =~= models(out@) + Seq::empty());
    }
    out
}

/// Where a rule stands among the rules of `badger clean`, all of them, and
/// then the tasks of `badger optimize`.
spec fn rank(id: Seq<char>) -> int {
    if id == "user.cache_apps"@ {
        0
    } else if id == "user.thumbnails"@ {
        1
    } else if id == "user.trash"@ {
        2
    } else if id == "dev.pip"@ {
        3
    } else if id == "dev.npm"@ {
        4
    } else if id == "dev.pnpm"@ {
        5
    } else if id == "dev.go"@ {
        6
    } else if id == "dev.cargo_registry"@ {
        7
    } else if id == "pacman.cache"@ {
        8
    } else if id == "pacman.sync_partial"@ {
        9
    } else if id == "aur.paru"@ {
        10
    } else if id == "system.journald"@ {
        11
    } else if id == "pacman.orphans"@ {
        12
    } else if id == "flatpak.unused"@ {
        13
    } else if id == "flatpak.app_caches"@ {
        14
    } else if id == "containers.prune"@ {
        15
    } else if id == "system.coredumps"@ {
        16
    } else if id == "snap.cache"@ {
        17
    } else if id == "snap.old_revisions"@ {
        18
    } else if id == "snapshots.snapper_cleanup"@ {
        19
    } else if id == "snapshots.snapper_manual"@ {
        20
    } else if id == "leftovers.orphan_configs"@ {
        21
    } else if id == "optimize.fstrim"@ {
        22
    } else if id == "optimize.reset_failed"@ {
        23
    } else if id == "optimize.font_cache"@ {
        24
    } else if id == "optimize.desktop_db"@ {
        25
    } else if id == "optimize.pacman_files"@ {
        26
    } else if id == "optimize.mirrors"@ {
        27
    } else if id == "optimize.updatedb"@ {
        28
    } else {
        -1
    }
}

proof fn lemma_ranks()
    ensures
        rank("user.cache_apps"@) == 0,
        rank("user.thumbnails"@) == 1,
        rank("user.trash"@) == 2,
        rank("dev.pip"@) == 3,
        rank("dev.npm"@) == 4,
        rank("dev.pnpm"@) == 5,
        rank("dev.go"@) == 6,
        rank("dev.cargo_registry"@) == 7,
        rank("pacman.cache"@) == 8,
        rank("pacman.sync_partial"@) == 9,
        rank("aur.paru"@) == 10,
        rank("system.journald"@) == 11,
        rank("pacman.orphans"@) == 12,
        rank("flatpak.unused"@) == 13,
        rank("flatpak.app_caches"@) == 14,
        rank("containers.prune"@) == 15,
        rank("system.coredumps"@) == 16,
        rank("snap.cache"@) == 17,
        rank("snap.old_revisions"@) == 18,
        rank("snapshots.snapper_cleanup"@) == 19,
        rank("snapshots.snapper_manual"@) == 20,
        rank("leftovers.orphan_configs"@) == 21,
        rank("optimize.fstrim"@) == 22,
        rank("optimize.reset_failed"@) == 23,
        rank("optimize.font_cache"@) == 24,
        rank("optimize.desktop_db"@) == 25,
        rank("optimize.pacman_files"@) == 26,
        rank("optimize.mirrors"@) == 27,
        rank("optimize.updatedb"@) == 28,
{
    reveal_strlit("user.cache_apps");
    assert("user.cache_apps"@.len() == 15);
    reveal_strlit("user.thumbnails");
    assert("user.thumbnails"@.len() == 15);
    reveal_strlit("user.trash");
    assert("user.trash"@.len() == 10);
    reveal_strlit("dev.pip");
    assert("dev.pip"@.len() == 7);
    reveal_strlit("dev.npm");
    assert("dev.npm"@.len() == 7);
    reveal_strlit("dev.pnpm");
    assert("dev.pnpm"@.len() == 8);
    reveal_strlit("dev.go");
    assert("dev.go"@.len() == 6);
    reveal_strlit("dev.cargo_registry");
    assert("dev.cargo_registry"@.len() == 18);
    reveal_strlit("pacman.cache");
    assert("pacman.cache"@.len() == 12);
    reveal_strlit("pacman.sync_partial");
    assert("pacman.sync_partial"@.len() == 19);
    reveal_strlit("aur.paru");
    assert("aur.paru"@.len() == 8);
    reveal_strlit("system.journald");
    assert("system.journald"@.len() == 15);
    reveal_strlit("pacman.orphans");
    assert("pacman.orphans"@.len() == 14);
    reveal_strlit("flatpak.unused");
    assert("flatpak.unused"@.len() == 14);
    reveal_strlit("flatpak.app_caches");
    assert("flatpak.app_caches"@.len() == 18);
    reveal_strlit("containers.prune");
    assert("containers.prune"@.len() == 16);
    reveal_strlit("system.coredumps");
    assert("system.coredumps"@.len() == 16);
    reveal_strlit("snap.cache");
    assert("snap.cache"@.len() == 10);
    reveal_strlit("snap.old_revisions");
    assert("snap.old_revisions"@.len() == 18);
    reveal_strlit("snapshots.snapper_cleanup");
    assert("snapshots.snapper_cleanup"@.len() == 25);
    reveal_strlit("snapshots.snapper_manual");
    assert("snapshots.snapper_manual"@.len() == 24);
    reveal_strlit("leftovers.orphan_configs");
    assert("leftovers.orphan_configs"@.len() == 24);
    reveal_strlit("optimize.fstrim");
    assert("optimize.fstrim"@.len() == 15);
    reveal_strlit("optimize.reset_failed");
    assert("optimize.reset_failed"@.len() == 21);
    reveal_strlit("optimize.font_cache");
    assert("optimize.font_cache"@.len() == 19);
    reveal_strlit("optimize.desktop_db");
    assert("optimize.desktop_db"@.len() == 19);
    reveal_strlit("optimize.pacman_files");
    assert("optimize.pacman_files"@.len() == 21);
    reveal_strlit("optimize.mirrors");
    assert("optimize.mirrors"@.len() == 16);
    reveal_strlit("optimize.updatedb");
    assert("optimize.updatedb"@.len() == 17);
    assert("user.thumbnails"@[5] != "user.cache_apps"@[5]);
    assert("dev.npm"@[4] != "dev.pip"@[4]);
    assert("aur.paru"@[0] != "dev.pnpm"@[0]);
    assert("system.journald"@[0] != "user.cache_apps"@[0]);
    assert("system.journald"@[0] != "user.thumbnails"@[0]);
    assert("flatpak.unused"@[0] != "pacman.orphans"@[0]);
    assert("flatpak.app_caches"@[0] != "dev.cargo_registry"@[0]);
    assert("system.coredumps"@[0] != "containers.prune"@[0]);
    assert("snap.cache"@[0] != "user.trash"@[0]);
    assert("snap.old_revisions"@[0] != "dev.cargo_registry"@[0]);
    assert("snap.old_revisions"@[0] != "flatpak.app_caches"@[0]);
    assert("leftovers.orphan_configs"@[0] != "snapshots.snapper_manual"@[0]);
    assert("optimize.fstrim"@[0] != "user.cache_apps"@[0]);
    assert("optimize.fstrim"@[0] != "user.thumbnails"@[0]);
    assert("optimize.fstrim"@[0] != "system.journald"@[0]);
    assert("optimize.font_cache"@[0] != "pacman.sync_partial"@[0]);
    assert("optimize.desktop_db"@[0] != "pacman.sync_partial"@[0]);
    assert("optimize.desktop_db"@[9] != "optimize.font_cache"@[9]);
    assert("optimize.pacman_files"@[9] != "optimize.reset_failed"@[9]);
    assert("optimize.mirrors"@[0] != "containers.prune"@[0]);
    assert("optimize.mirrors"@[0] != "system.coredumps"@[0]);
}

/// No two rules of `badger clean` have the same id, nor does any have that of
/// a task of `badger optimize`, nor have two of these.
pub proof fn law_rule_ids_are_unique(i: int, j: int)
    requires
        0 <= i < j < (registry_table(true) + optimize::table()).len(),
    ensures
        (registry_table(true) + optimize::table())[i].id != (registry_table(true)
            + optimize::table())[j].id,
{
    lemma_ranks();
    lemma_rank_of(i);
    lemma_rank_of(j);
}

proof fn lemma_rank_of(i: int)
    requires
        0 <= i < (registry_table(true) + optimize::table()).len(),
        rank("user.cache_apps"@) == 0,
        rank("user.thumbnails"@) == 1,
        rank("user.trash"@) == 2,
        rank("dev.pip"@) == 3,
        rank("dev.npm"@) == 4,
        rank("dev.pnpm"@) == 5,
        rank("dev.go"@) == 6,
        rank("dev.cargo_registry"@) == 7,
        rank("pacman.cache"@) == 8,
        rank("pacman.sync_partial"@) == 9,
        rank("aur.paru"@) == 10,
        rank("system.journald"@) == 11,
        rank("pacman.orphans"@) == 12,
        rank("flatpak.unused"@) == 13,
        rank("flatpak.app_caches"@) == 14,
        rank("containers.prune"@) == 15,
        rank("system.coredumps"@) == 16,
        rank("snap.cache"@) == 17,
        rank("snap.old_revisions"@) == 18,
        rank("snapshots.snapper_cleanup"@) == 19,
        rank("snapshots.snapper_manual"@) == 20,
        rank("leftovers.orphan_configs"@) == 21,
        rank("optimize.fstrim"@) == 22,
        rank("optimize.reset_failed"@) == 23,
        rank("optimize.font_cache"@) == 24,
        rank("optimize.desktop_db"@) == 25,
        rank("optimize.pacman_files"@) == 26,
        rank("optimize.mirrors"@) == 27,
        rank("optimize.updatedb"@) == 28,
    ensures
        rank((registry_table(true) + optimize::table())[i].id) == i,
{
    let all = registry_table(true) + optimize::table();
    if i == 0 {
        assert(all[i] == user::table()[0]);
    }
    if i == 1 {
        assert(all[i] == user::table()[1]);
    }
    if i == 2 {
        assert(all[i] == user::table()[2]);
    }
    if i == 3 {
        assert(all[i] == dev::table()[0]);
    }
    if i == 4 {
        assert(all[i] == dev::table()[1]);
    }
    if i == 5 {
        assert(all[i] == dev::table()[2]);
    }
    if i == 6 {
        assert(all[i] == dev::table()[3]);
    }
    if i == 7 {
        assert(all[i] == dev::table()[4]);
    }
    if i == 8 {
        assert(all[i] == command::table()[0]);
    }
    if i == 9 {
        assert(all[i] == command::table()[1]);
    }
    if i == 10 {
        assert(all[i] == command::table()[2]);
    }
    if i == 11 {
        assert(all[i] == command::table()[3]);
    }
    if i == 12 {
        assert(all[i] == command::table()[4]);
    }
    if i == 13 {
        assert(all[i] == moderate::table()[0]);
    }
    if i == 14 {
        assert(all[i] == moderate::table()[1]);
    }
    if i == 15 {
        assert(all[i] == moderate::table()[2]);
    }
    if i == 16 {
        assert(all[i] == moderate::table()[3]);
    }
    if i == 17 {
        assert(all[i] == moderate::table()[4]);
    }
    if i == 18 {
        assert(all[i] == snap::table()[0]);
    }
    if i == 19 {
        assert(all[i] == snapshots::table()[0]);
    }
    if i == 20 {
        assert(all[i] == snapshots::table()[1]);
    }
    if i == 21 {
        assert(all[i] == leftovers::table()[0]);
    }
    if i == 22 {
        assert(all[i] == optimize::table()[0]);
    }
    if i == 23 {
        assert(all[i] == optimize::table()[1]);
    }
    if i == 24 {
        assert(all[i] == optimize::table()[2]);
    }
    if i == 25 {
        assert(all[i] == optimize::table()[3]);
    }
    if i == 26 {
        assert(all[i] == optimize::table()[4]);
    }
    if i == 27 {
        assert(all[i] == optimize::table()[5]);
    }
    if i == 28 {
        assert(all[i] == optimize::table()[6]);
    }
}

/// The guesses are only in the registry if asked for, and never with root
/// privilege.
pub proof fn law_guesses_are_opt_in_and_unprivileged(experimental: bool, i: int)
    requires
        0 <= i < registry_table(experimental).len(),
        registry_table(experimental)[i].detector == DetectorModel::Fn(Finder::OrphanConfigs),
    ensures
        experimental,
        !registry_table(experimental)[i].requires_sudo,
        registry_table(experimental)[i].risk == Risk::Risky,
{
    let t = registry_table(experimental);
    if i == 0 {
        assert(t[i] == user::table()[0]);
    }
    if i == 1 {
        assert(t[i] == user::table()[1]);
    }
    if i == 2 {
        assert(t[i] == user::table()[2]);
    }
    if i == 3 {
        assert(t[i] == dev::table()[0]);
    }
    if i == 4 {
        assert(t[i] == dev::table()[1]);
    }
    if i == 5 {
        assert(t[i] == dev::table()[2]);
    }
    if i == 6 {
        assert(t[i] == dev::table()[3]);
    }
    if i == 7 {
        assert(t[i] == dev::table()[4]);
    }
    if i == 8 {
        assert(t[i] == command::table()[0]);
    }
    if i == 9 {
        assert(t[i] == command::table()[1]);
    }
    if i == 10 {
        assert(t[i] == command::table()[2]);
    }
    if i == 11 {
        assert(t[i] == command::table()[3]);
    }
    if i == 12 {
        assert(t[i] == command::table()[4]);
    }
    if i == 13 {
        assert(t[i] == moderate::table()[0]);
    }
    if i == 14 {
        assert(t[i] == moderate::table()[1]);
    }
    if i == 15 {
        assert(t[i] == moderate::table()[2]);
    }
    if i == 16 {
        assert(t[i] == moderate::table()[3]);
    }
    if i == 17 {
        assert(t[i] == moderate::table()[4]);
    }
    if i == 18 {
        assert(t[i] == snap::table()[0]);
    }
    if i == 19 {
        assert(t[i] == snapshots::table()[0]);
    }
    if i == 20 {
        assert(t[i] == snapshots::table()[1]);
    }
    if i == 21 {
        assert(t[i] == leftovers::table()[0]);
    }
}

// ------------------------------------------------------------------------ laws


/// A path written from `~` lies in the home directory, one written from a
/// slash in the root, and any other is itself.
pub proof fn law_paths_are_read_from_home_and_root(
    rel: Seq<char>,
    root: Seq<char>,
    home: Seq<char>,
)
    requires
        rel.len() > 0,
        rel[0] != '/',
        root.len() > 0,
        home.len() > 0,
    ensures
        home.last() != '/' ==> expanded("~/"@ + rel, root, home) == home + "/"@ + rel,
        root.last() != '/' ==> expanded("/"@ + rel, root, home) == root + "/"@ + rel,
        root.last() == '/' ==> expanded("/"@ + rel, root, home) == root + rel,
        expanded("~"@, root, home) == home,
        rel[0] != '~' ==> expanded(rel, root, home) == rel,
{
    reveal_strlit("~/");
    reveal_strlit("~");
    reveal_strlit("/");
    let a = "~/"@ + rel;
    assert(a.subrange(0, 2) =~= "~/"@);
    assert(a.skip(2) =~= rel);
    let b = "/"@ + rel;
    assert(b.subrange(0, 1) =~= "/"@);
    assert(b.skip(1) =~= rel);
    assert(b[0] == '/');
    if text::starts_with(b, "~/"@) {
        assert(b.subrange(0, 2)[0] == '/');
        assert("~/"@[0] == '~');
    }
    if text::starts_with(rel, "~/"@) {
        assert(rel.subrange(0, 2)[0] == rel[0]);
        assert("~/"@[0] == '~');
    }
    if text::starts_with(rel, "/"@) {
        assert(rel.subrange(0, 1)[0] == rel[0]);
        assert("/"@[0] == '/');
    }
    assert(!text::starts_with("~"@, "~/"@));
    assert("~"@[0] == '~');
}

/// Whether a rule of this id can do harm.
pub open spec fn can_harm(id: Seq<char>) -> bool {
    ||| id == "snap.old_revisions"@
    ||| id == "snapshots.snapper_cleanup"@
    ||| id == "snapshots.snapper_manual"@
    ||| id == "leftovers.orphan_configs"@
}

/// Whether a rule of this id takes away what may be missed.
pub open spec fn may_be_missed(id: Seq<char>) -> bool {
    ||| id == "system.journald"@
    ||| id == "pacman.orphans"@
    ||| id == "flatpak.unused"@
    ||| id == "flatpak.app_caches"@
    ||| id == "containers.prune"@
    ||| id == "system.coredumps"@
    ||| id == "snap.cache"@
    ||| id == "optimize.pacman_files"@
    ||| id == "optimize.mirrors"@
}

/// Whether a rule of this id takes root's power.
pub open spec fn takes_root(id: Seq<char>) -> bool {
    ||| id == "pacman.cache"@
    ||| id == "pacman.sync_partial"@
    ||| id == "system.journald"@
    ||| id == "pacman.orphans"@
    ||| id == "system.coredumps"@
    ||| id == "snap.cache"@
    ||| id == "snap.old_revisions"@
    ||| id == "snapshots.snapper_cleanup"@
    ||| id == "snapshots.snapper_manual"@
    ||| id == "optimize.fstrim"@
    ||| id == "optimize.reset_failed"@
    ||| id == "optimize.pacman_files"@
    ||| id == "optimize.mirrors"@
    ||| id == "optimize.updatedb"@
}

/// The places that a rule of this id deletes in; none for one that deletes no
/// paths.
pub open spec fn deletes_in(id: Seq<char>) -> Seq<Seq<char>> {
    if id == "user.cache_apps"@ {
        seq!["~/.cache"@]
    } else if id == "user.thumbnails"@ {
        seq!["~/.cache/thumbnails"@]
    } else if id == "user.trash"@ {
        seq!["~/.local/share/Trash/files"@]
    } else if id == "dev.pip"@ {
        seq!["~/.cache/pip"@]
    } else if id == "dev.npm"@ {
        seq!["~/.npm/_cacache"@]
    } else if id == "dev.pnpm"@ {
        seq!["~/.local/share/pnpm/store"@]
    } else if id == "dev.go"@ {
        seq!["~/.cache/go-build"@]
    } else if id == "dev.cargo_registry"@ {
        seq!["~/.cargo/registry/cache"@]
    } else if id == "pacman.sync_partial"@ {
        seq!["/var/cache/pacman/pkg"@]
    } else if id == "aur.paru"@ {
        seq!["~/.cache/paru"@]
    } else if id == "flatpak.app_caches"@ {
        seq!["~/.var/app"@]
    } else if id == "system.coredumps"@ {
        seq!["/var/lib/systemd/coredump"@]
    } else if id == "snap.cache"@ {
        seq!["/var/lib/snapd/cache"@]
    } else if id == "leftovers.orphan_configs"@ {
        seq!["~/.config"@, "~/.local/share"@, "~/.cache"@]
    } else {
        Seq::empty()
    }
}

/// What a rule of this id looks for by its path alone.
pub open spec fn looks_for(id: Seq<char>) -> Option<Seq<char>> {
    if id == "user.thumbnails"@ {
        Some("~/.cache/thumbnails"@)
    } else if id == "dev.pip"@ {
        Some("~/.cache/pip"@)
    } else if id == "dev.npm"@ {
        Some("~/.npm/_cacache"@)
    } else if id == "dev.pnpm"@ {
        Some("~/.local/share/pnpm/store"@)
    } else if id == "dev.go"@ {
        Some("~/.cache/go-build"@)
    } else if id == "dev.cargo_registry"@ {
        Some("~/.cargo/registry/cache"@)
    } else if id == "pacman.sync_partial"@ {
        Some("/var/cache/pacman/pkg/*.part"@)
    } else if id == "aur.paru"@ {
        Some("~/.cache/paru"@)
    } else if id == "system.coredumps"@ {
        Some("/var/lib/systemd/coredump/*"@)
    } else if id == "snap.cache"@ {
        Some("/var/lib/snapd/cache/*"@)
    } else {
        None
    }
}

/// The command that a rule of this id needs, if it needs just one.
pub open spec fn needs(id: Seq<char>) -> Option<Seq<char>> {
    if id == "aur.paru"@ {
        Some("paru"@)
    } else if id == "pacman.cache"@ {
        Some("paccache"@)
    } else if id == "system.journald"@ {
        Some("journalctl"@)
    } else if id == "pacman.orphans"@ {
        Some("pacman"@)
    } else if id == "flatpak.unused"@ {
        Some("flatpak"@)
    } else if id == "snap.cache"@ {
        Some("snap"@)
    } else if id == "snap.old_revisions"@ {
        Some("snap"@)
    } else if id == "leftovers.orphan_configs"@ {
        Some("pacman"@)
    } else if id == "optimize.font_cache"@ {
        Some("fc-cache"@)
    } else if id == "optimize.pacman_files"@ {
        Some("pacman"@)
    } else if id == "optimize.updatedb"@ {
        Some("updatedb"@)
    } else {
        None
    }
}

/// Every rule has the risk that becomes it, takes root's power only where it
/// must, needs its command, and deletes in its own places and nowhere else.
pub proof fn law_rules_keep_to_their_places(i: int)
    requires
        0 <= i < (registry_table(true) + optimize::table()).len(),
    ensures
        ({
            let rule = (registry_table(true) + optimize::table())[i];
            &&& rule.risk == Risk::Risky <==> can_harm(rule.id)
            &&& rule.risk == Risk::Moderate <==> may_be_missed(rule.id)
            &&& rule.requires_sudo <==> takes_root(rule.id)
            &&& rule.allowed_prefixes == deletes_in(rule.id)
            &&& rule.action == Action::DeletePaths <==> rule.allowed_prefixes.len() > 0
            &&& looks_for(rule.id) is Some ==> rule.detector == DetectorModel::Globs(
                seq![looks_for(rule.id)->0],
            )
            &&& needs(rule.id) is Some ==> rule.applicable == ApplicabilityModel::CommandExists(
                needs(rule.id)->0,
            )
        }),
{
    lemma_ranks();
    lemma_rank_of(i);
    let all = registry_table(true) + optimize::table();
    if i == 0 {
        assert(all[i] == user::table()[0]);
        assert(all[i].id == "user.cache_apps"@);
    }
    if i == 1 {
        assert(all[i] == user::table()[1]);
        assert(all[i].id == "user.thumbnails"@);
    }
    if i == 2 {
        assert(all[i] == user::table()[2]);
        assert(all[i].id == "user.trash"@);
    }
    if i == 3 {
        assert(all[i] == dev::table()[0]);
        assert(all[i].id == "dev.pip"@);
    }
    if i == 4 {
        assert(all[i] == dev::table()[1]);
        assert(all[i].id == "dev.npm"@);
    }
    if i == 5 {
        assert(all[i] == dev::table()[2]);
        assert(all[i].id == "dev.pnpm"@);
    }
    if i == 6 {
        assert(all[i] == dev::table()[3]);
        assert(all[i].id == "dev.go"@);
    }
    if i == 7 {
        assert(all[i] == dev::table()[4]);
        assert(all[i].id == "dev.cargo_registry"@);
    }
    if i == 8 {
        assert(all[i] == command::table()[0]);
        assert(all[i].id == "pacman.cache"@);
    }
    if i == 9 {
        assert(all[i] == command::table()[1]);
        assert(all[i].id == "pacman.sync_partial"@);
    }
    if i == 10 {
        assert(all[i] == command::table()[2]);
        assert(all[i].id == "aur.paru"@);
    }
    if i == 11 {
        assert(all[i] == command::table()[3]);
        assert(all[i].id == "system.journald"@);
    }
    if i == 12 {
        assert(all[i] == command::table()[4]);
        assert(all[i].id == "pacman.orphans"@);
    }
    if i == 13 {
        assert(all[i] == moderate::table()[0]);
        assert(all[i].id == "flatpak.unused"@);
    }
    if i == 14 {
        assert(all[i] == moderate::table()[1]);
        assert(all[i].id == "flatpak.app_caches"@);
    }
    if i == 15 {
        assert(all[i] == moderate::table()[2]);
        assert(all[i].id == "containers.prune"@);
    }
    if i == 16 {
        assert(all[i] == moderate::table()[3]);
        assert(all[i].id == "system.coredumps"@);
    }
    if i == 17 {
        assert(all[i] == moderate::table()[4]);
        assert(all[i].id == "snap.cache"@);
    }
    if i == 18 {
        assert(all[i] == snap::table()[0]);
        assert(all[i].id == "snap.old_revisions"@);
    }
    if i == 19 {
        assert(all[i] == snapshots::table()[0]);
        assert(all[i].id == "snapshots.snapper_cleanup"@);
    }
    if i == 20 {
        assert(all[i] == snapshots::table()[1]);
        assert(all[i].id == "snapshots.snapper_manual"@);
    }
    if i == 21 {
        assert(all[i] == leftovers::table()[0]);
        assert(all[i].id == "leftovers.orphan_configs"@);
    }
    if i == 22 {
        assert(all[i] == optimize::table()[0]);
        assert(all[i].id == "optimize.fstrim"@);
    }
    if i == 23 {
        assert(all[i] == optimize::table()[1]);
        assert(all[i].id == "optimize.reset_failed"@);
    }
    if i == 24 {
        assert(all[i] == optimize::table()[2]);
        assert(all[i].id == "optimize.font_cache"@);
    }
    if i == 25 {
        assert(all[i] == optimize::table()[3]);
        assert(all[i].id == "optimize.desktop_db"@);
    }
    if i == 26 {
        assert(all[i] == optimize::table()[4]);
        assert(all[i].id == "optimize.pacman_files"@);
    }
    if i == 27 {
        assert(all[i] == optimize::table()[5]);
        assert(all[i].id == "optimize.mirrors"@);
    }
    if i == 28 {
        assert(all[i] == optimize::table()[6]);
        assert(all[i].id == "optimize.updatedb"@);
    }
}

} // verus!

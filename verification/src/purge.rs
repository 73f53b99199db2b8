//! Build output and dependency directories (`node_modules`, Rust `target/`,
//! Python virtualenvs, ...) below the configured project directories. They
//! come from a walk, not from a rule, but are offered in the same groups.

use vstd::prelude::*;

use crate::config::Config;
use crate::ctx::Ctx;
use crate::host::{lemma_room_shrinks, room, Host, Kind};
use crate::item::{
    candidates, groups, skips, skip_view, Candidate, CandidateModel, Group, GroupModel, Risk, Skip,
};
use crate::labels::{display_label, shown};
use crate::order;
use crate::paths;
use crate::rules::{expand_path_spec_parts, expanded_all, expanded};
use crate::safety::protected::{refusal_text, validate_deletable, verdict, SafetyEnv, Tier};
use crate::safety::whitelist::Whitelist;
use crate::text;
use crate::text::concat2;

verus! {

broadcast use vstd::seq::group_seq_axioms;

#[derive(Debug, Clone, Copy, PartialEq, Eq, Structural)]
pub enum ArtifactKind {
    NodeModules,
    CargoTarget,
    PyVenv,
    DistBuild,
    NextBuild,
    Pycache,
    Gradle,
    MypyCache,
    PytestCache,
}

/// Every kind, in the order in which the groups are shown.
pub open spec fn all_kinds() -> Seq<ArtifactKind> {
    seq![
        ArtifactKind::NodeModules,
        ArtifactKind::CargoTarget,
        ArtifactKind::PyVenv,
        ArtifactKind::DistBuild,
        ArtifactKind::NextBuild,
        ArtifactKind::Pycache,
        ArtifactKind::Gradle,
        ArtifactKind::MypyCache,
        ArtifactKind::PytestCache,
    ]
}

fn all_kinds_list() -> (r: Vec<ArtifactKind>)
    ensures
        r@ == all_kinds(),
{
    let r = vec![
        ArtifactKind::NodeModules,
        ArtifactKind::CargoTarget,
        ArtifactKind::PyVenv,
        ArtifactKind::DistBuild,
        ArtifactKind::NextBuild,
        ArtifactKind::Pycache,
        ArtifactKind::Gradle,
        ArtifactKind::MypyCache,
        ArtifactKind::PytestCache,
    ];
    assert(r@ =~= all_kinds());
    r
}

pub open spec fn kind_id(kind: ArtifactKind) -> Seq<char> {
    match kind {
        ArtifactKind::NodeModules => "purge.node_modules"@,
        ArtifactKind::CargoTarget => "purge.cargo_target"@,
        ArtifactKind::PyVenv => "purge.py_venv"@,
        ArtifactKind::DistBuild => "purge.dist_build"@,
        ArtifactKind::NextBuild => "purge.next_build"@,
        ArtifactKind::Pycache => "purge.pycache"@,
        ArtifactKind::Gradle => "purge.gradle"@,
        ArtifactKind::MypyCache => "purge.mypy_cache"@,
        ArtifactKind::PytestCache => "purge.pytest_cache"@,
    }
}

pub open spec fn kind_title(kind: ArtifactKind) -> Seq<char> {
    match kind {
        ArtifactKind::NodeModules => "node_modules directories"@,
        ArtifactKind::CargoTarget => "Rust target/ directories"@,
        ArtifactKind::PyVenv => "Python virtualenvs"@,
        ArtifactKind::DistBuild => "dist/build directories"@,
        ArtifactKind::NextBuild => "Next.js build cache (.next)"@,
        ArtifactKind::Pycache => "Python __pycache__ directories"@,
        ArtifactKind::Gradle => "Gradle build cache (.gradle)"@,
        ArtifactKind::MypyCache => "mypy cache (.mypy_cache)"@,
        ArtifactKind::PytestCache => "pytest cache (.pytest_cache)"@,
    }
}

impl ArtifactKind {
    pub fn rule_id(self) -> (r: &'static str)
        ensures
            r@ == kind_id(self),
    {
        match self {
            ArtifactKind::NodeModules => "purge.node_modules",
            ArtifactKind::CargoTarget => "purge.cargo_target",
            ArtifactKind::PyVenv => "purge.py_venv",
            ArtifactKind::DistBuild => "purge.dist_build",
            ArtifactKind::NextBuild => "purge.next_build",
            ArtifactKind::Pycache => "purge.pycache",
            ArtifactKind::Gradle => "purge.gradle",
            ArtifactKind::MypyCache => "purge.mypy_cache",
            ArtifactKind::PytestCache => "purge.pytest_cache",
        }
    }

    pub fn title(self) -> (r: &'static str)
        ensures
            r@ == kind_title(self),
    {
        match self {
            ArtifactKind::NodeModules => "node_modules directories",
            ArtifactKind::CargoTarget => "Rust target/ directories",
            ArtifactKind::PyVenv => "Python virtualenvs",
            ArtifactKind::DistBuild => "dist/build directories",
            ArtifactKind::NextBuild => "Next.js build cache (.next)",
            ArtifactKind::Pycache => "Python __pycache__ directories",
            ArtifactKind::Gradle => "Gradle build cache (.gradle)",
            ArtifactKind::MypyCache => "mypy cache (.mypy_cache)",
            ArtifactKind::PytestCache => "pytest cache (.pytest_cache)",
        }
    }
}

// -------------------------------------------------------------- what is what

/// Whether `dir` holds a regular file `name`, links followed.
pub open spec fn has_file(dir: Seq<char>, name: Seq<char>, host: &Host) -> bool {
    host.is_file(paths::joined(dir, name))
}

/// Whether a name in `dir` begins with `prefix`.
pub open spec fn has_prefixed(dir: Seq<char>, prefix: Seq<char>, host: &Host) -> bool {
    match host.listing(dir) {
        Some(names) => exists|i: int|
            0 <= i < names.len() && text::starts_with(#[trigger] names[i], prefix),
        None => false,
    }
}

/// What the directory `path`, called `name` in `parent`, is. Most kinds need
/// the file beside or inside them that shows them to be a project's output
/// and not a directory that happens to be called so.
pub open spec fn kind_of(
    path: Seq<char>,
    name: Seq<char>,
    parent: Seq<char>,
    host: &Host,
) -> Option<ArtifactKind> {
    if name == "node_modules"@ {
        gated(has_file(parent, "package.json"@, host), ArtifactKind::NodeModules)
    } else if name == "target"@ {
        gated(has_file(parent, "Cargo.toml"@, host), ArtifactKind::CargoTarget)
    } else if name == ".venv"@ || name == "venv"@ {
        gated(has_file(path, "pyvenv.cfg"@, host), ArtifactKind::PyVenv)
    } else if name == "dist"@ || name == "build"@ {
        gated(
            has_file(parent, "package.json"@, host) || has_file(parent, "setup.py"@, host)
                || has_file(parent, "pyproject.toml"@, host),
            ArtifactKind::DistBuild,
        )
    } else if name == ".next"@ {
        gated(has_file(parent, "package.json"@, host), ArtifactKind::NextBuild)
    } else if name == "__pycache__"@ {
        Some(ArtifactKind::Pycache)
    } else if name == ".gradle"@ {
        gated(has_prefixed(parent, "build.gradle"@, host), ArtifactKind::Gradle)
    } else if name == ".mypy_cache"@ {
        Some(ArtifactKind::MypyCache)
    } else if name == ".pytest_cache"@ {
        Some(ArtifactKind::PytestCache)
    } else {
        None
    }
}

pub open spec fn gated(open: bool, kind: ArtifactKind) -> Option<ArtifactKind> {
    if open {
        Some(kind)
    } else {
        None
    }
}

fn gate(open: bool, kind: ArtifactKind) -> (r: Option<ArtifactKind>)
    ensures
        r == gated(open, kind),
{
    if open {
        Some(kind)
    } else {
        None
    }
}

fn holds_file(dir: &str, name: &str, host: &Host) -> (r: bool)
    ensures
        r == has_file(dir@, name@, host),
{
    let path = paths::join(dir, name);
    host.leads_to_file(path.as_str())
}

fn has_prefixed_sibling(dir: &str, prefix: &str, host: &Host) -> (r: bool)
    ensures
        r == has_prefixed(dir@, prefix@, host),
{
    let names = match host.list(dir) {
        Some(names) => names,
        None => {
            return false;
        },
    };
    let ghost all = text::texts(names@);
    let mut i: usize = 0;
    while i < names.len()
        invariant
            i <= names.len(),
            all == text::texts(names@),
            host.listing(dir@) == Some(all),
            forall|k: int| 0 <= k < i ==> !text::starts_with(#[trigger] all[k], prefix@),
        decreases names.len() - i,
    {
        assert(all[i as int] == names@[i as int]@);
        if text::has_prefix(names[i].as_str(), prefix) {
            assert(text::starts_with(host.listing(dir@)->0[i as int], prefix@));
            return true;
        }
        i += 1;
    }
    false
}

pub fn classify(path: &str, name: &str, parent: &str, host: &Host) -> (r: Option<ArtifactKind>)
    ensures
        r == kind_of(path@, name@, parent@, host),
{
    if text::same(name, "node_modules") {
        gate(holds_file(parent, "package.json", host), ArtifactKind::NodeModules)
    } else if text::same(name, "target") {
        gate(holds_file(parent, "Cargo.toml", host), ArtifactKind::CargoTarget)
    } else if text::same(name, ".venv") || text::same(name, "venv") {
        gate(holds_file(path, "pyvenv.cfg", host), ArtifactKind::PyVenv)
    } else if text::same(name, "dist") || text::same(name, "build") {
        gate(
            holds_file(parent, "package.json", host) || holds_file(parent, "setup.py", host)
                || holds_file(parent, "pyproject.toml", host),
            ArtifactKind::DistBuild,
        )
    } else if text::same(name, ".next") {
        gate(holds_file(parent, "package.json", host), ArtifactKind::NextBuild)
    } else if text::same(name, "__pycache__") {
        Some(ArtifactKind::Pycache)
    } else if text::same(name, ".gradle") {
        gate(has_prefixed_sibling(parent, "build.gradle", host), ArtifactKind::Gradle)
    } else if text::same(name, ".mypy_cache") {
        Some(ArtifactKind::MypyCache)
    } else if text::same(name, ".pytest_cache") {
        Some(ArtifactKind::PytestCache)
    } else {
        None
    }
}

// ------------------------------------------------------------------- the walk

pub open spec fn is_real_dir(path: Seq<char>, host: &Host) -> bool {
    match host.found(path) {
        Some(entry) => entry.kind == Kind::Dir,
        None => false,
    }
}

/// The artifacts below `dir`, names in order. The walk never enters a link,
/// an artifact or a hidden directory, and a name that does not lead further
/// down is passed over.
pub open spec fn walked(dir: Seq<char>, host: &Host) -> Seq<(ArtifactKind, Seq<char>)>
    decreases room(dir, host), 1nat, 0nat,
{
    match host.listing(dir) {
        Some(names) => walked_names(dir, order::by_name(names), names.len(), host),
        None => Seq::empty(),
    }
}

/// Those below the first `n` names.
pub open spec fn walked_names(
    dir: Seq<char>,
    names: Seq<Seq<char>>,
    n: nat,
    host: &Host,
) -> Seq<(ArtifactKind, Seq<char>)>
    decreases room(dir, host), 0nat, n,
{
    if n == 0 {
        Seq::empty()
    } else {
        let before = walked_names(dir, names, (n - 1) as nat, host);
        let name = names[n - 1];
        let path = paths::joined(dir, name);
        if !is_real_dir(path, host) {
            before
        } else {
            match kind_of(path, name, dir, host) {
                Some(kind) => before.push((kind, path)),
                None => if text::starts_with(name, "."@) || path.len() <= dir.len() {
                    before
                } else {
                    proof {
                        lemma_room_shrinks(dir, path, host);
                    }
                    before + walked(path, host)
                },
            }
        }
    }
}

pub open spec fn found_view(v: Seq<(ArtifactKind, String)>) -> Seq<(ArtifactKind, Seq<char>)> {
    Seq::new(v.len(), |i: int| (v[i].0, v[i].1@))
}

/// Walks `dir` and collects every artifact found. Directories that are not
/// hidden are walked all the way down.
pub fn walk_dir(dir: &str, host: &Host) -> (r: Vec<(ArtifactKind, String)>)
    ensures
        found_view(r@) == walked(dir@, host),
    decreases room(dir@, host),
{
    let mut out: Vec<(ArtifactKind, String)> = Vec::new();
    assert(found_view(out@) =~= Seq::empty());
    let names = match host.list(dir) {
        Some(names) => order::sort_names(text::copies(names)),
        None => {
            return out;
        },
    };
    let ghost all = text::texts(names@);
    proof {
        order::law_sorting_orders_and_keeps(
            host.listing(dir@)->0,
            |name: Seq<char>| seq![name],
        );
    }
    let mut i: usize = 0;
    while i < names.len()
        invariant
            i <= names.len(),
            all == text::texts(names@),
            found_view(out@) == walked_names(dir@, all, i as nat, host),
        decreases names.len() - i,
    {
        assert(all[i as int] == names@[i as int]@);
        let ghost had = out@;
        let name = names[i].as_str();
        let path = paths::join(dir, name);
        let is_dir = match host.find(path.as_str()) {
            Some(entry) => entry.kind == Kind::Dir,
            None => false,
        };
        if is_dir {
            match classify(path.as_str(), name, dir, host) {
                Some(kind) => {
                    out.push((kind, path));
                    assert(found_view(out@) =~= found_view(had).push((kind, path@)));
                },
                None => {
                    if !text::has_prefix(name, ".") && text::chars_of(path.as_str()).len()
                        > text::chars_of(dir).len() {
                        proof {
                            lemma_room_shrinks(dir@, path@, host);
                        }
                        let mut more = walk_dir(path.as_str(), host);
                        let ghost below = more@;
                        out.append(&mut more);
                        assert(found_view(out@) =~= found_view(had) + found_view(below));
                    }
                },
            }
        }
        i += 1;
    }
    out
}

// ------------------------------------------------------------------- the scan

pub fn expand_roots(roots: &Vec<String>, root: &str, home: &str) -> (r: Vec<String>)
    ensures
        text::texts(r@) == expanded_all(text::texts(roots@), root@, home@),
{
    let ghost all = text::texts(roots@);
    let mut out: Vec<String> = Vec::new();
    let mut i: usize = 0;
    while i < roots.len()
        invariant
            i <= roots.len(),
            all == text::texts(roots@),
            out.len() == i,
            forall|k: int|
                0 <= k < i ==> (#[trigger] out@[k])@ == expanded(all[k], root@, home@),
        decreases roots.len() - i,
    {
        assert(all[i as int] == roots@[i as int]@);
        out.push(expand_path_spec_parts(roots[i].as_str(), root, home));
        i += 1;
    }
    assert(text::texts(out@) =~= expanded_all(all, root@, home@));
    out
}

/// The artifacts below the first `n` roots; roots that are not there are
/// passed over.
pub open spec fn walked_roots(roots: Seq<Seq<char>>, n: int, host: &Host) -> Seq<
    (ArtifactKind, Seq<char>),
>
    decreases n,
{
    if n <= 0 {
        Seq::empty()
    } else if host.is_dir(roots[n - 1]) {
        walked_roots(roots, n - 1, host) + walked(roots[n - 1], host)
    } else {
        walked_roots(roots, n - 1, host)
    }
}

fn walk_roots(roots: &Vec<String>, host: &Host) -> (r: Vec<(ArtifactKind, String)>)
    ensures
        found_view(r@) == walked_roots(text::texts(roots@), roots@.len() as int, host),
{
    let ghost all = text::texts(roots@);
    let mut out: Vec<(ArtifactKind, String)> = Vec::new();
    assert(found_view(out@) =~= Seq::empty());
    let mut i: usize = 0;
    while i < roots.len()
        invariant
            i <= roots.len(),
            all == text::texts(roots@),
            found_view(out@) == walked_roots(all, i as int, host),
        decreases roots.len() - i,
    {
        assert(all[i as int] == roots@[i as int]@);
        let ghost had = out@;
        if host.leads_to_dir(roots[i].as_str()) {
            let mut more = walk_dir(roots[i].as_str(), host);
            let ghost below = more@;
            out.append(&mut more);
            assert(found_view(out@) =~= found_view(had) + found_view(below));
        }
        i += 1;
    }
    out
}

/// Whether the project that `path` belongs to, the directory it lies in, was
/// changed within the last `days` days: it is probably not done with its
/// build output yet.
pub open spec fn recent(path: Seq<char>, days: u32, host: &Host) -> bool {
    match paths::parent(path) {
        Some(parent) => match host.found(parent) {
            Some(entry) => entry.modified is Some && !host.older_than(entry, days),
            None => false,
        },
        None => false,
    }
}

pub fn is_recent(path: &str, days: u32, host: &Host) -> (r: bool)
    ensures
        r == recent(path@, days, host),
{
    match paths::parent_of(path) {
        Some(parent) => match host.find(parent.as_str()) {
            Some(entry) => match entry.modified {
                Some(_) => !host.is_older_than(entry, days),
                None => false,
            },
            None => false,
        },
        None => false,
    }
}

/// What is offered for an artifact. A recent or whitelisted one is shown but
/// not selected.
pub open spec fn offer(
    path: Seq<char>,
    ctx: &Ctx,
    days: u32,
    covered: bool,
    host: &Host,
) -> CandidateModel {
    let label = shown(path, ctx.root@, ctx.home@);
    CandidateModel {
        path: Some(path),
        label: if recent(path, days, host) {
            label + " (recent)"@
        } else {
            label
        },
        bytes: host.size_of(path),
        selectable: !covered && !recent(path, days, host),
        whitelisted: covered,
    }
}

/// The candidates of one kind among the first `n` finds.
pub open spec fn offers(
    found: Seq<(ArtifactKind, Seq<char>)>,
    n: int,
    kind: ArtifactKind,
    ctx: &Ctx,
    config: &Config,
    whitelist: &Whitelist,
    env: &SafetyEnv,
    host: &Host,
) -> Seq<CandidateModel>
    decreases n,
{
    if n <= 0 {
        Seq::empty()
    } else {
        let before = offers(found, n - 1, kind, ctx, config, whitelist, env, host);
        let path = found[n - 1].1;
        let roots = expanded_all(text::texts(config.purge.roots@), ctx.root@, ctx.home@);
        if found[n - 1].0 == kind && verdict(path, roots, Tier::User, env, host) is None {
            before.push(
                offer(path, ctx, config.purge.recent_days, whitelist.covers(path), host),
            )
        } else {
            before
        }
    }
}

/// The refused ones, each with the reason.
pub open spec fn refusals(
    found: Seq<(ArtifactKind, Seq<char>)>,
    n: int,
    kind: ArtifactKind,
    ctx: &Ctx,
    config: &Config,
    env: &SafetyEnv,
    host: &Host,
) -> Seq<(Seq<char>, Seq<char>)>
    decreases n,
{
    if n <= 0 {
        Seq::empty()
    } else {
        let before = refusals(found, n - 1, kind, ctx, config, env, host);
        let path = found[n - 1].1;
        let roots = expanded_all(text::texts(config.purge.roots@), ctx.root@, ctx.home@);
        match verdict(path, roots, Tier::User, env, host) {
            Some(refusal) if found[n - 1].0 == kind => before.push(
                (shown(path, ctx.root@, ctx.home@), refusal_text(refusal)),
            ),
            _ => before,
        }
    }
}

/// The group of one kind.
pub open spec fn kind_group(
    found: Seq<(ArtifactKind, Seq<char>)>,
    kind: ArtifactKind,
    ctx: &Ctx,
    config: &Config,
    whitelist: &Whitelist,
    env: &SafetyEnv,
    host: &Host,
) -> GroupModel {
    GroupModel {
        rule_id: kind_id(kind),
        title: kind_title(kind),
        risk: Risk::Safe,
        requires_sudo: false,
        candidates: offers(
            found,
            found.len() as int,
            kind,
            ctx,
            config,
            whitelist,
            env,
            host,
        ),
        skipped: refusals(found, found.len() as int, kind, ctx, config, env, host),
    }
}

fn group_of(
    found: &Vec<(ArtifactKind, String)>,
    kind: ArtifactKind,
    allowed: &Vec<String>,
    ctx: &Ctx,
    config: &Config,
    whitelist: &Whitelist,
    env: &SafetyEnv,
    host: &Host,
) -> (r: Group)
    requires
        text::texts(allowed@) == expanded_all(
            text::texts(config.purge.roots@),
            ctx.root@,
            ctx.home@,
        ),
    ensures
        r@ == kind_group(found_view(found@), kind, ctx, config, whitelist, env, host),
{
    let ghost all = found_view(found@);
    let mut offered: Vec<Candidate> = Vec::new();
    let mut skipped: Vec<Skip> = Vec::new();
    assert(candidates(offered@) =~= Seq::empty());
    assert(skips(skipped@) =~= Seq::empty());
    let mut i: usize = 0;
    while i < found.len()
        invariant
            i <= found.len(),
            all == found_view(found@),
            text::texts(allowed@) == expanded_all(
                text::texts(config.purge.roots@),
                ctx.root@,
                ctx.home@,
            ),
            candidates(offered@) == offers(
                all,
                i as int,
                kind,
                ctx,
                config,
                whitelist,
                env,
                host,
            ),
            skips(skipped@) == refusals(all, i as int, kind, ctx, config, env, host),
        decreases found.len() - i,
    {
        assert(all[i as int] == (found@[i as int].0, found@[i as int].1@));
        let ghost had = offered@;
        let ghost noted = skipped@;
        if found[i].0 == kind {
            let path = found[i].1.as_str();
            let mut label = display_label(path, ctx);
            match validate_deletable(path, allowed, Tier::User, env, host) {
                Err(refusal) => {
                    let note = (label, refusal.message());
                    skipped.push(note);
                    assert(skips(skipped@) =~= skips(noted).push(skip_view(note)));
                },
                Ok(_) => {
                    let covered = whitelist.matches(path);
                    let is_new = is_recent(path, config.purge.recent_days, host);
                    if is_new {
                        label = concat2(label.as_str(), " (recent)");
                    }
                    let c = Candidate {
                        path: Some(path.to_owned()),
                        label,
                        bytes: host.size(path),
                        selectable: !covered && !is_new,
                        whitelisted: covered,
                    };
                    offered.push(c);
                    assert(c@ == offer(
                        path@,
                        ctx,
                        config.purge.recent_days,
                        covered,
                        host,
                    ));
                    assert(candidates(offered@) =~= candidates(had).push(c@));
                },
            }
        }
        i += 1;
    }
    Group {
        rule_id: kind.rule_id().to_owned(),
        title: kind.title().to_owned(),
        risk: Risk::Safe,
        requires_sudo: false,
        candidates: offered,
        skipped,
    }
}

/// Everything that a scan finds.
pub open spec fn purge_groups(
    ctx: &Ctx,
    config: &Config,
    whitelist: &Whitelist,
    env: &SafetyEnv,
    host: &Host,
) -> Seq<GroupModel> {
    let roots = expanded_all(text::texts(config.purge.roots@), ctx.root@, ctx.home@);
    let found = walked_roots(roots, roots.len() as int, host);
    Seq::new(
        all_kinds().len(),
        |i: int| kind_group(found, all_kinds()[i], ctx, config, whitelist, env, host),
    )
}

/// One group for each kind, empty ones too, over every configured root that
/// is there. What the whitelist covers is greyed out.
pub fn scan(
    ctx: &Ctx,
    config: &Config,
    whitelist: &Whitelist,
    env: &SafetyEnv,
    host: &Host,
) -> (r: Vec<Group>)
    ensures
        groups(r@) == purge_groups(ctx, config, whitelist, env, host),
{
    let allowed = expand_roots(&config.purge.roots, ctx.root.as_str(), ctx.home.as_str());
    let ghost roots = expanded_all(text::texts(config.purge.roots@), ctx.root@, ctx.home@);
    assert(roots.len() == allowed@.len());
    let found = walk_roots(&allowed, host);
    let ghost finds = walked_roots(roots, roots.len() as int, host);
    let kinds = all_kinds_list();
    let mut out: Vec<Group> = Vec::new();
    let mut i: usize = 0;
    while i < kinds.len()
        invariant
            i <= kinds.len(),
            kinds@ == all_kinds(),
            finds == found_view(found@),
            text::texts(allowed@) == expanded_all(
                text::texts(config.purge.roots@),
                ctx.root@,
                ctx.home@,
            ),
            out.len() == i,
            forall|k: int|
                0 <= k < i ==> (#[trigger] out@[k])@ == kind_group(
                    finds,
                    all_kinds()[k],
                    ctx,
                    config,
                    whitelist,
                    env,
                    host,
                ),
        decreases kinds.len() - i,
    {
        out.push(group_of(&found, kinds[i], &allowed, ctx, config, whitelist, env, host));
        i += 1;
    }
    assert(groups(out@) =~= purge_groups(ctx, config, whitelist, env, host));
    out
}

// ------------------------------------------------------------------------ laws

proof fn lemma_offers(
    found: Seq<(ArtifactKind, Seq<char>)>,
    n: int,
    kind: ArtifactKind,
    ctx: &Ctx,
    config: &Config,
    whitelist: &Whitelist,
    env: &SafetyEnv,
    host: &Host,
    k: int,
)
    requires
        0 <= k < offers(found, n, kind, ctx, config, whitelist, env, host).len(),
    ensures
        ({
            let c = offers(found, n, kind, ctx, config, whitelist, env, host)[k];
            let roots = expanded_all(text::texts(config.purge.roots@), ctx.root@, ctx.home@);
            &&& c.path is Some
            &&& verdict(c.path->0, roots, Tier::User, env, host) is None
            &&& c.whitelisted == whitelist.covers(c.path->0)
            &&& c.selectable == (!c.whitelisted && !recent(
                c.path->0,
                config.purge.recent_days,
                host,
            ))
        }),
    decreases n,
{
    if n > 0 {
        let before = offers(found, n - 1, kind, ctx, config, whitelist, env, host);
        if k < before.len() {
            lemma_offers(found, n - 1, kind, ctx, config, whitelist, env, host, k);
        }
    }
}

/// Everything that is offered may be deleted, inside the configured roots.
/// What the whitelist covers and what was touched recently is never selected
/// by itself.
pub proof fn law_offers_are_deletable_and_only_old_ones_preselected(
    ctx: &Ctx,
    config: &Config,
    whitelist: &Whitelist,
    env: &SafetyEnv,
    host: &Host,
    i: int,
    k: int,
)
    requires
        0 <= i < purge_groups(ctx, config, whitelist, env, host).len(),
        0 <= k < purge_groups(ctx, config, whitelist, env, host)[i].candidates.len(),
    ensures
        ({
            let c = purge_groups(ctx, config, whitelist, env, host)[i].candidates[k];
            let roots = expanded_all(text::texts(config.purge.roots@), ctx.root@, ctx.home@);
            &&& c.path is Some
            &&& verdict(c.path->0, roots, Tier::User, env, host) is None
            &&& whitelist.covers(c.path->0) ==> c.whitelisted && !c.selectable
            &&& recent(c.path->0, config.purge.recent_days, host) ==> !c.selectable
            &&& !whitelist.covers(c.path->0) && !recent(
                c.path->0,
                config.purge.recent_days,
                host,
            ) ==> c.selectable
        }),
{
    let roots = expanded_all(text::texts(config.purge.roots@), ctx.root@, ctx.home@);
    let found = walked_roots(roots, roots.len() as int, host);
    lemma_offers(
        found,
        found.len() as int,
        all_kinds()[i],
        ctx,
        config,
        whitelist,
        env,
        host,
        k,
    );
}

/// Whether this can be the name of something in a directory.
pub open spec fn plain(name: Seq<char>) -> bool {
    name.len() > 0 && !name.contains('/')
}

/// Whether directories hold nothing but plain names.
pub open spec fn tidy(host: &Host) -> bool {
    forall|dir: Seq<char>, i: int|
        host.listing(dir) is Some && 0 <= i < host.listing(dir)->0.len() ==> plain(
            #[trigger] host.listing(dir)->0[i],
        )
}

/// Whether `path` lies strictly below `dir`.
pub open spec fn inside(path: Seq<char>, dir: Seq<char>) -> bool {
    text::starts_with(path, dir + "/"@)
}

pub open spec fn ends_in_name(dir: Seq<char>) -> bool {
    dir.len() > 0 && dir.last() != '/'
}

proof fn lemma_joined_plain(dir: Seq<char>, name: Seq<char>)
    requires
        ends_in_name(dir),
        plain(name),
    ensures
        paths::joined(dir, name) == dir + "/"@ + name,
        ends_in_name(paths::joined(dir, name)),
        inside(paths::joined(dir, name), dir),
{
    reveal_strlit("/");
    if paths::absolute(name) {
        assert(name[0] == '/');
        assert(name.contains('/'));
    }
    let path = dir + "/"@ + name;
    assert(path.last() == name.last());
    if name.last() == '/' {
        assert(name.contains('/'));
    }
    assert(path.subrange(0, dir.len() as int + 1) =~= dir + "/"@);
}

/// What lies below something below `dir` lies below `dir`.
proof fn lemma_inside_further(dir: Seq<char>, name: Seq<char>, path: Seq<char>)
    requires
        ends_in_name(dir),
        plain(name),
        inside(path, paths::joined(dir, name)),
    ensures
        inside(path, dir),
        text::starts_with(path, dir + "/"@ + name + "/"@),
{
    reveal_strlit("/");
    lemma_joined_plain(dir, name);
    let a = dir + "/"@ + name + "/"@;
    assert(path.subrange(0, a.len() as int) =~= a);
    assert(path.subrange(0, dir.len() as int + 1) =~= a.subrange(0, dir.len() as int + 1));
    assert(a.subrange(0, dir.len() as int + 1) =~= dir + "/"@);
}

/// The first name below `dir` on the way to something deeper is one only.
proof fn lemma_same_branch(dir: Seq<char>, a: Seq<char>, b: Seq<char>, path: Seq<char>)
    requires
        plain(a),
        plain(b),
        text::starts_with(path, dir + "/"@ + a + "/"@),
        path == dir + "/"@ + b || text::starts_with(path, dir + "/"@ + b + "/"@),
    ensures
        a == b,
{
    reveal_strlit("/");
    let n = dir.len() as int + 1;
    let x = dir + "/"@ + a + "/"@;
    assert(path.subrange(0, x.len() as int) == x);
    assert(path[n + a.len()] == '/') by {
        assert(x[n + a.len()] == '/');
        assert(path.subrange(0, x.len() as int)[n + a.len()] == path[n + a.len()]);
    }
    assert forall|k: int| 0 <= k < a.len() implies path[n + k] == a[k] by {
        assert(x[n + k] == a[k]);
        assert(path.subrange(0, x.len() as int)[n + k] == path[n + k]);
    }
    if path == dir + "/"@ + b {
        assert(path[n + a.len()] == b[a.len() as int]);
        assert(b.contains('/'));
    } else {
        let y = dir + "/"@ + b + "/"@;
        assert(path.subrange(0, y.len() as int) == y);
        assert(path[n + b.len()] == '/') by {
            assert(y[n + b.len()] == '/');
            assert(path.subrange(0, y.len() as int)[n + b.len()] == path[n + b.len()]);
        }
        assert forall|k: int| 0 <= k < b.len() implies path[n + k] == b[k] by {
            assert(y[n + k] == b[k]);
            assert(path.subrange(0, y.len() as int)[n + k] == path[n + k]);
        }
        if a.len() < b.len() {
            assert(b[a.len() as int] == '/');
            assert(b.contains('/'));
        } else if b.len() < a.len() {
            assert(a[b.len() as int] == '/');
            assert(a.contains('/'));
        }
        assert(a =~= b);
    }
}

/// Whether an artifact was found under this name of `dir`: it has the name,
/// or the walk went on below it.
spec fn found_under(
    x: (ArtifactKind, Seq<char>),
    dir: Seq<char>,
    name: Seq<char>,
    host: &Host,
) -> bool {
    let path = paths::joined(dir, name);
    match kind_of(path, name, dir, host) {
        Some(kind) => x == (kind, path),
        None => path.len() > dir.len() && walked(path, host).contains(x),
    }
}

proof fn lemma_found_under(
    dir: Seq<char>,
    names: Seq<Seq<char>>,
    n: nat,
    host: &Host,
    x: (ArtifactKind, Seq<char>),
)
    requires
        n <= names.len(),
        walked_names(dir, names, n, host).contains(x),
    ensures
        exists|m: int| 0 <= m < n && found_under(x, dir, #[trigger] names[m], host),
    decreases n,
{
    if n > 0 {
        let before = walked_names(dir, names, (n - 1) as nat, host);
        let name = names[n - 1];
        if before.contains(x) {
            lemma_found_under(dir, names, (n - 1) as nat, host, x);
            let m = choose|m: int| 0 <= m < n - 1 && found_under(x, dir, #[trigger] names[m], host);
            assert(found_under(x, dir, names[m], host));
        } else {
            assert(found_under(x, dir, name, host));
        }
    }
}

/// Where in `dir` an artifact was found.
proof fn lemma_branch(dir: Seq<char>, host: &Host, x: (ArtifactKind, Seq<char>)) -> (name: Seq<char>)
    requires
        tidy(host),
        walked(dir, host).contains(x),
    ensures
        plain(name),
        found_under(x, dir, name, host),
{
    broadcast use vstd::seq_lib::group_to_multiset_ensures;

    let names = host.listing(dir)->0;
    let sorted = order::by_name(names);
    order::law_sorting_orders_and_keeps(names, |name: Seq<char>| seq![name]);
    lemma_found_under(dir, sorted, names.len(), host, x);
    let m = choose|m: int| 0 <= m < names.len() && found_under(x, dir, #[trigger] sorted[m], host);
    assert(sorted.contains(sorted[m]));
    assert(sorted.to_multiset().contains(sorted[m]));
    assert(names.contains(sorted[m]));
    sorted[m]
}

proof fn lemma_found_inside(dir: Seq<char>, host: &Host, x: (ArtifactKind, Seq<char>))
    requires
        tidy(host),
        ends_in_name(dir),
        walked(dir, host).contains(x),
    ensures
        inside(x.1, dir),
    decreases room(dir, host),
{
    let name = lemma_branch(dir, host, x);
    let path = paths::joined(dir, name);
    lemma_joined_plain(dir, name);
    if kind_of(path, name, dir, host) is None {
        lemma_room_shrinks(dir, path, host);
        lemma_found_inside(path, host, x);
        lemma_inside_further(dir, name, x.1);
    }
}

/// No artifact is found inside another one: what is offered for deletion is
/// counted once.
pub proof fn law_artifacts_do_not_nest(
    dir: Seq<char>,
    host: &Host,
    x: (ArtifactKind, Seq<char>),
    y: (ArtifactKind, Seq<char>),
)
    requires
        tidy(host),
        ends_in_name(dir),
        walked(dir, host).contains(x),
        walked(dir, host).contains(y),
    ensures
        !inside(y.1, x.1),
    decreases room(dir, host),
{
    let a = lemma_branch(dir, host, x);
    let b = lemma_branch(dir, host, y);
    let p = paths::joined(dir, a);
    let q = paths::joined(dir, b);
    lemma_joined_plain(dir, a);
    lemma_joined_plain(dir, b);
    if inside(y.1, x.1) {
        // The way to `x` leads by `a`, and the way to `y` leads by `b`.
        if kind_of(p, a, dir, host) is None {
            lemma_room_shrinks(dir, p, host);
            lemma_found_inside(p, host, x);
            lemma_further_still(p, x.1, y.1);
        }
        lemma_inside_further(dir, a, y.1);
        if kind_of(q, b, dir, host) is None {
            lemma_room_shrinks(dir, q, host);
            lemma_found_inside(q, host, y);
            lemma_inside_further(dir, b, y.1);
        }
        lemma_same_branch(dir, a, b, y.1);
        if kind_of(p, a, dir, host) is None {
            law_artifacts_do_not_nest(p, host, x, y);
        } else {
            reveal_strlit("/");
            assert(x == y);
        }
    }
}

/// What lies below something that lies below `dir` lies below `dir`.
proof fn lemma_further_still(dir: Seq<char>, path: Seq<char>, deeper: Seq<char>)
    requires
        inside(path, dir),
        inside(deeper, path),
    ensures
        inside(deeper, dir),
{
    let n = (dir + "/"@).len() as int;
    let m = (path + "/"@).len() as int;
    assert(deeper.subrange(0, n) =~= deeper.subrange(0, m).subrange(0, n));
    assert((path + "/"@).subrange(0, n) =~= path.subrange(0, n));
}

/// An offer for a project that was changed within the configured days is
/// marked and not selected. One for a project left alone for longer has its
/// bare label, and is selected unless the whitelist covers it. Each offer
/// tells the bytes there are.
pub proof fn law_recent_projects_are_left_alone(
    ctx: &Ctx,
    config: &Config,
    whitelist: &Whitelist,
    env: &SafetyEnv,
    host: &Host,
    i: int,
    k: int,
    up: Seq<char>,
    project: Seq<char>,
    name: Seq<char>,
    then: i64,
)
    requires
        0 <= i < purge_groups(ctx, config, whitelist, env, host).len(),
        0 <= k < purge_groups(ctx, config, whitelist, env, host)[i].candidates.len(),
        paths::entry_name(project),
        paths::entry_name(name),
        purge_groups(ctx, config, whitelist, env, host)[i].candidates[k].path == Some(
            up + "/"@ + project + "/"@ + name,
        ),
        host.found(up + "/"@ + project) is Some,
        host.found(up + "/"@ + project)->0.modified == Some(then),
    ensures
        ({
            let c = purge_groups(ctx, config, whitelist, env, host)[i].candidates[k];
            let path = up + "/"@ + project + "/"@ + name;
            let label = shown(path, ctx.root@, ctx.home@);
            &&& then + config.purge.recent_days * 86_400_000_000_000 > host.now
                ==> !c.selectable && c.label == label + " (recent)"@
            &&& then + config.purge.recent_days * 86_400_000_000_000 <= host.now
                ==> c.selectable == !whitelist.covers(path) && c.label == label
            &&& host.found(path) is Some ==> c.bytes == host.found(path)->0.size
        }),
{
    let roots = expanded_all(text::texts(config.purge.roots@), ctx.root@, ctx.home@);
    let found = walked_roots(roots, roots.len() as int, host);
    reveal_strlit("/");
    assert("/"@ =~= seq!['/']);
    paths::law_the_parent_of_a_child(up, project, name);
    lemma_offers_whole(
        found,
        found.len() as int,
        all_kinds()[i],
        ctx,
        config,
        whitelist,
        env,
        host,
        k,
    );
}

proof fn lemma_offers_whole(
    found: Seq<(ArtifactKind, Seq<char>)>,
    n: int,
    kind: ArtifactKind,
    ctx: &Ctx,
    config: &Config,
    whitelist: &Whitelist,
    env: &SafetyEnv,
    host: &Host,
    k: int,
) -> (j: int)
    requires
        n <= found.len(),
        0 <= k < offers(found, n, kind, ctx, config, whitelist, env, host).len(),
    ensures
        ({
            let c = offers(found, n, kind, ctx, config, whitelist, env, host)[k];
            &&& c.path is Some
            &&& c == offer(
                c.path->0,
                ctx,
                config.purge.recent_days,
                whitelist.covers(c.path->0),
                host,
            )
            &&& 0 <= j < n
            &&& found[j] == (kind, c.path->0)
        }),
    decreases n,
{
    let before = offers(found, n - 1, kind, ctx, config, whitelist, env, host);
    if n > 0 && k < before.len() {
        lemma_offers_whole(found, n - 1, kind, ctx, config, whitelist, env, host, k)
    } else {
        n - 1
    }
}

// ------------------------------------------------------------ what there is to find

/// Whether `dir` holds what a link or a name makes a regular file.
pub open spec fn beside(dir: Seq<char>, name: Seq<char>, host: &Host) -> bool {
    let path = paths::below(dir, name);
    host.found(path) is Some && host.found(path)->0.leads_to_file
}

/// Whether the directory `name` in `dir` is output of this kind, by what lies
/// beside it or in it.
pub open spec fn made(kind: ArtifactKind, dir: Seq<char>, name: Seq<char>, host: &Host) -> bool {
    match kind {
        ArtifactKind::NodeModules => name == "node_modules"@ && beside(
            dir,
            "package.json"@,
            host,
        ),
        ArtifactKind::CargoTarget => name == "target"@ && beside(dir, "Cargo.toml"@, host),
        ArtifactKind::PyVenv => (name == "venv"@ || name == ".venv"@) && beside(
            paths::below(dir, name),
            "pyvenv.cfg"@,
            host,
        ),
        ArtifactKind::DistBuild => (name == "dist"@ || name == "build"@) && (beside(
            dir,
            "package.json"@,
            host,
        ) || beside(dir, "setup.py"@, host) || beside(dir, "pyproject.toml"@, host)),
        ArtifactKind::NextBuild => name == ".next"@ && beside(dir, "package.json"@, host),
        ArtifactKind::Pycache => name == "__pycache__"@,
        ArtifactKind::Gradle => name == ".gradle"@ && host.listing(dir) is Some && exists|
            tail: Seq<char>,
        |
            host.listing(dir)->0.contains(#[trigger] ("build.gradle"@ + tail)),
        ArtifactKind::MypyCache => name == ".mypy_cache"@,
        ArtifactKind::PytestCache => name == ".pytest_cache"@,
    }
}

proof fn lemma_fixed_names()
    ensures
        paths::entry_name("package.json"@),
        paths::entry_name("Cargo.toml"@),
        paths::entry_name("pyvenv.cfg"@),
        paths::entry_name("setup.py"@),
        paths::entry_name("pyproject.toml"@),
{
    reveal_strlit(".");
    reveal_strlit("..");
    reveal_strlit("package.json");
    assert("package.json"@ =~= seq!['p', 'a', 'c', 'k', 'a', 'g', 'e', '.', 'j', 's', 'o', 'n']);
    reveal_strlit("Cargo.toml");
    assert("Cargo.toml"@ =~= seq!['C', 'a', 'r', 'g', 'o', '.', 't', 'o', 'm', 'l']);
    reveal_strlit("pyvenv.cfg");
    assert("pyvenv.cfg"@ =~= seq!['p', 'y', 'v', 'e', 'n', 'v', '.', 'c', 'f', 'g']);
    reveal_strlit("setup.py");
    assert("setup.py"@ =~= seq!['s', 'e', 't', 'u', 'p', '.', 'p', 'y']);
    reveal_strlit("pyproject.toml");
    assert("pyproject.toml"@ =~= seq!['p', 'y', 'p', 'r', 'o', 'j', 'e', 'c', 't', '.', 't', 'o', 'm', 'l']);
}

proof fn lemma_gradle(dir: Seq<char>, host: &Host)
    ensures
        has_prefixed(dir, "build.gradle"@, host) <==> host.listing(dir) is Some && exists|
            tail: Seq<char>,
        |
            host.listing(dir)->0.contains(#[trigger] ("build.gradle"@ + tail)),
{
    let p = "build.gradle"@;
    if let Some(names) = host.listing(dir) {
        if has_prefixed(dir, p, host) {
            let i = choose|i: int|
                0 <= i < names.len() && text::starts_with(#[trigger] names[i], p);
            let tail = names[i].skip(p.len() as int);
            assert(names[i] =~= p + tail);
            assert(names.contains(p + tail));
        }
        if exists|tail: Seq<char>| names.contains(#[trigger] (p + tail)) {
            let tail = choose|tail: Seq<char>| names.contains(#[trigger] (p + tail));
            let i = choose|i: int| 0 <= i < names.len() && names[i] == p + tail;
            assert((p + tail).subrange(0, p.len() as int) =~= p);
            assert(text::starts_with(names[i], p));
        }
    }
}

/// What a directory is told to be is what it was made as.
proof fn lemma_kind_is_made(dir: Seq<char>, name: Seq<char>, host: &Host, kind: ArtifactKind)
    requires
        dir.len() > 0,
        paths::entry_name(name),
    ensures
        kind_of(paths::below(dir, name), name, dir, host) == Some(kind) <==> made(
            kind,
            dir,
            name,
            host,
        ),
{
    lemma_fixed_names();
    lemma_gradle(dir, host);
    let path = paths::below(dir, name);
    paths::lemma_below(dir, name);
    paths::lemma_below(dir, "package.json"@);
    paths::lemma_below(dir, "Cargo.toml"@);
    paths::lemma_below(dir, "setup.py"@);
    paths::lemma_below(dir, "pyproject.toml"@);
    paths::lemma_below(path, "pyvenv.cfg"@);
    reveal_strlit("node_modules");
    reveal_strlit("target");
    reveal_strlit("venv");
    reveal_strlit(".venv");
    reveal_strlit("dist");
    reveal_strlit("build");
    reveal_strlit(".next");
    reveal_strlit("__pycache__");
    reveal_strlit(".gradle");
    reveal_strlit(".mypy_cache");
    reveal_strlit(".pytest_cache");
    assert("target"@[0] == 't' && ".venv"@[1] == 'v' && ".next"@[1] == 'n');
    assert("venv"@[0] == 'v' && "dist"@[0] == 'd' && "__pycache__"@[0] == '_');
    assert(".mypy_cache"@[0] == '.');
}

/// Whether the names lead down from `dir` to a directory: all but the last
/// through directories that are neither hidden nor output themselves.
pub open spec fn open_way(dir: Seq<char>, way: Seq<Seq<char>>, host: &Host) -> bool
    decreases way.len(),
{
    &&& way.len() > 0
    &&& host.listing(dir) is Some
    &&& host.listing(dir)->0.contains(way[0])
    &&& host.found(paths::below(dir, way[0])) is Some
    &&& host.found(paths::below(dir, way[0]))->0.kind == Kind::Dir
    &&& way.len() > 1 ==> {
        &&& way[0][0] != '.'
        &&& forall|kind: ArtifactKind| !made(kind, dir, way[0], host)
        &&& open_way(paths::below(dir, way[0]), way.skip(1), host)
    }
}

/// Whether this is what the names lead to from `dir`, and of what kind it is.
pub open spec fn artifact_at(
    x: (ArtifactKind, Seq<char>),
    dir: Seq<char>,
    way: Seq<Seq<char>>,
    host: &Host,
) -> bool {
    &&& open_way(dir, way, host)
    &&& x.1 == paths::down(dir, way)
    &&& made(x.0, paths::down(dir, way.drop_last()), way.last(), host)
}

/// Whether directories hold nothing but names.
pub open spec fn named(host: &Host) -> bool {
    forall|dir: Seq<char>, i: int|
        host.listing(dir) is Some && 0 <= i < host.listing(dir)->0.len() ==> paths::entry_name(
            #[trigger] host.listing(dir)->0[i],
        )
}

proof fn lemma_listed_name(dir: Seq<char>, name: Seq<char>, host: &Host)
    requires
        named(host),
        host.listing(dir) is Some,
        host.listing(dir)->0.contains(name),
    ensures
        paths::entry_name(name),
{
    let names = host.listing(dir)->0;
    let j = choose|j: int| 0 <= j < names.len() && names[j] == name;
    assert(paths::entry_name(host.listing(dir)->0[j]));
}

proof fn lemma_hidden(name: Seq<char>)
    requires
        name.len() > 0,
    ensures
        text::starts_with(name, "."@) <==> name[0] == '.',
{
    reveal_strlit(".");
    assert("."@ =~= seq!['.']);
    assert(name.subrange(0, 1) =~= seq![name[0]]);
    assert(seq![name[0]][0] == name[0]);
    assert(seq!['.'][0] == '.');
}

proof fn lemma_artifact_seen_at_names(
    dir: Seq<char>,
    names: Seq<Seq<char>>,
    n: nat,
    host: &Host,
    x: (ArtifactKind, Seq<char>),
    way: Seq<Seq<char>>,
    j: int,
)
    requires
        named(host),
        dir.len() > 0,
        host.listing(dir) is Some,
        0 <= j < n <= names.len(),
        names[j] == way[0],
        artifact_at(x, dir, way, host),
    ensures
        walked_names(dir, names, n, host).contains(x),
    decreases room(dir, host), 0nat, n,
{
    let before = walked_names(dir, names, (n - 1) as nat, host);
    let now = walked_names(dir, names, n, host);
    if j < n - 1 {
        lemma_artifact_seen_at_names(dir, names, (n - 1) as nat, host, x, way, j);
        let k = choose|k: int| 0 <= k < before.len() && before[k] == x;
        assert(now[k] == x);
    } else {
        let name = way[0];
        let path = paths::below(dir, name);
        lemma_listed_name(dir, name, host);
        paths::lemma_below(dir, name);
        lemma_hidden(name);
        if way.len() == 1 {
            assert(way.skip(1) =~= Seq::empty());
            assert(way.drop_last() =~= Seq::empty());
            assert(paths::down(path, way.skip(1)) == path);
            lemma_kind_is_made(dir, name, host, x.0);
            assert(now[before.len() as int] == x);
        } else {
            assert(kind_of(path, name, dir, host) is None) by {
                if let Some(kind) = kind_of(path, name, dir, host) {
                    lemma_kind_is_made(dir, name, host, kind);
                }
            }
            lemma_room_shrinks(dir, path, host);
            let rest = way.skip(1);
            assert(rest.drop_last() =~= way.drop_last().skip(1));
            assert(paths::down(dir, way.drop_last()) == paths::down(path, rest.drop_last()));
            assert(rest.last() == way.last());
            lemma_artifact_seen(path, host, x, rest);
            let more = walked(path, host);
            let k = choose|k: int| 0 <= k < more.len() && more[k] == x;
            assert(now == before + more);
            assert(now[before.len() + k] == x);
        }
    }
}

proof fn lemma_artifact_seen(
    dir: Seq<char>,
    host: &Host,
    x: (ArtifactKind, Seq<char>),
    way: Seq<Seq<char>>,
)
    requires
        named(host),
        dir.len() > 0,
        artifact_at(x, dir, way, host),
    ensures
        walked(dir, host).contains(x),
    decreases room(dir, host), 1nat, 0nat,
{
    let names = host.listing(dir)->0;
    let key = |name: Seq<char>| seq![name];
    let sorted = order::by_name(names);
    order::law_sorting_orders_and_keeps(names, key);
    order::lemma_sorted_holds(names, key, way[0]);
    let j = choose|j: int| 0 <= j < sorted.len() && sorted[j] == way[0];
    lemma_artifact_seen_at_names(dir, sorted, names.len(), host, x, way, j);
}

proof fn lemma_only_artifacts_at_names(
    dir: Seq<char>,
    names: Seq<Seq<char>>,
    n: nat,
    host: &Host,
    x: (ArtifactKind, Seq<char>),
) -> (way: Seq<Seq<char>>)
    requires
        named(host),
        dir.len() > 0,
        host.listing(dir) is Some,
        n <= names.len(),
        forall|i: int| 0 <= i < names.len() ==> host.listing(dir)->0.contains(#[trigger] names[i]),
        walked_names(dir, names, n, host).contains(x),
    ensures
        artifact_at(x, dir, way, host),
    decreases room(dir, host), 0nat, n,
{
    if n == 0 {
        arbitrary()
    } else {
        let before = walked_names(dir, names, (n - 1) as nat, host);
        let now = walked_names(dir, names, n, host);
        if before.contains(x) {
            lemma_only_artifacts_at_names(dir, names, (n - 1) as nat, host, x)
        } else {
            let name = names[n - 1];
            let path = paths::below(dir, name);
            lemma_listed_name(dir, name, host);
            paths::lemma_below(dir, name);
            lemma_hidden(name);
            assert(is_real_dir(path, host));
            match kind_of(path, name, dir, host) {
                Some(kind) => {
                    let way = seq![name];
                    assert(way.skip(1) =~= Seq::empty());
                    assert(way.drop_last() =~= Seq::empty());
                    assert(paths::down(path, way.skip(1)) == path);
                    lemma_kind_is_made(dir, name, host, kind);
                    assert(x == (kind, path)) by {
                        let k = choose|k: int| 0 <= k < now.len() && now[k] == x;
                        if k < before.len() {
                            assert(before[k] == x);
                        }
                    }
                    way
                },
                None => {
                    let more = walked(path, host);
                    assert(now == before + more);
                    assert(more.contains(x)) by {
                        let k = choose|k: int| 0 <= k < now.len() && now[k] == x;
                        if k < before.len() {
                            assert(before[k] == x);
                        } else {
                            assert(more[k - before.len()] == x);
                        }
                    }
                    lemma_room_shrinks(dir, path, host);
                    let rest = lemma_only_artifacts(path, host, x);
                    let way = seq![name] + rest;
                    assert(way.skip(1) =~= rest);
                    assert(way.drop_last().skip(1) =~= rest.drop_last());
                    assert(paths::down(dir, way.drop_last()) == paths::down(
                        path,
                        rest.drop_last(),
                    ));
                    assert forall|kind: ArtifactKind| !made(kind, dir, name, host) by {
                        lemma_kind_is_made(dir, name, host, kind);
                    }
                    assert(open_way(dir, way, host));
                    way
                },
            }
        }
    }
}

proof fn lemma_only_artifacts(
    dir: Seq<char>,
    host: &Host,
    x: (ArtifactKind, Seq<char>),
) -> (way: Seq<Seq<char>>)
    requires
        named(host),
        dir.len() > 0,
        walked(dir, host).contains(x),
    ensures
        artifact_at(x, dir, way, host),
    decreases room(dir, host), 1nat, 0nat,
{
    let names = host.listing(dir)->0;
    let key = |name: Seq<char>| seq![name];
    let sorted = order::by_name(names);
    order::law_sorting_orders_and_keeps(names, key);
    assert forall|i: int| 0 <= i < sorted.len() implies names.contains(#[trigger] sorted[i]) by {
        order::lemma_sorted_holds(names, key, sorted[i]);
        assert(sorted.contains(sorted[i]));
    }
    lemma_only_artifacts_at_names(dir, sorted, names.len(), host, x)
}

/// A walk finds the build output that can be reached without going through a
/// hidden directory or other output, each of its kind, and nothing else.
pub proof fn law_a_walk_finds_all_output(
    dir: Seq<char>,
    host: &Host,
    x: (ArtifactKind, Seq<char>),
)
    requires
        named(host),
        dir.len() > 0,
    ensures
        walked(dir, host).contains(x) <==> exists|way: Seq<Seq<char>>|
            artifact_at(x, dir, way, host),
{
    if walked(dir, host).contains(x) {
        let way = lemma_only_artifacts(dir, host, x);
        assert(artifact_at(x, dir, way, host));
    }
    if exists|way: Seq<Seq<char>>| artifact_at(x, dir, way, host) {
        let way = choose|way: Seq<Seq<char>>| artifact_at(x, dir, way, host);
        lemma_artifact_seen(dir, host, x, way);
    }
}

proof fn lemma_walked_roots(
    roots: Seq<Seq<char>>,
    n: int,
    host: &Host,
    r: int,
    x: (ArtifactKind, Seq<char>),
)
    requires
        0 <= r < n <= roots.len(),
        host.is_dir(roots[r]),
        walked(roots[r], host).contains(x),
    ensures
        walked_roots(roots, n, host).contains(x),
    decreases n,
{
    let now = walked_roots(roots, n, host);
    let before = walked_roots(roots, n - 1, host);
    if r < n - 1 {
        lemma_walked_roots(roots, n - 1, host, r, x);
        let k = choose|k: int| 0 <= k < before.len() && before[k] == x;
        assert(now[k] == x);
    } else {
        let more = walked(roots[r], host);
        let k = choose|k: int| 0 <= k < more.len() && more[k] == x;
        assert(now[before.len() + k] == x);
    }
}

proof fn lemma_offered_or_told(
    found: Seq<(ArtifactKind, Seq<char>)>,
    n: int,
    kind: ArtifactKind,
    ctx: &Ctx,
    config: &Config,
    whitelist: &Whitelist,
    env: &SafetyEnv,
    host: &Host,
    j: int,
)
    requires
        0 <= j < n <= found.len(),
        found[j].0 == kind,
    ensures
        ({
            let path = found[j].1;
            let roots = expanded_all(text::texts(config.purge.roots@), ctx.root@, ctx.home@);
            let list = offers(found, n, kind, ctx, config, whitelist, env, host);
            let told = refusals(found, n, kind, ctx, config, env, host);
            match verdict(path, roots, Tier::User, env, host) {
                None => exists|k: int|
                    0 <= k < list.len() && (#[trigger] list[k]).path == Some(path),
                Some(refusal) => told.contains(
                    (shown(path, ctx.root@, ctx.home@), refusal_text(refusal)),
                ),
            }
        }),
    decreases n,
{
    let path = found[j].1;
    let roots = expanded_all(text::texts(config.purge.roots@), ctx.root@, ctx.home@);
    let list = offers(found, n, kind, ctx, config, whitelist, env, host);
    let had = offers(found, n - 1, kind, ctx, config, whitelist, env, host);
    let told = refusals(found, n, kind, ctx, config, env, host);
    let knew = refusals(found, n - 1, kind, ctx, config, env, host);
    if j < n - 1 {
        lemma_offered_or_told(found, n - 1, kind, ctx, config, whitelist, env, host, j);
        match verdict(path, roots, Tier::User, env, host) {
            None => {
                let k = choose|k: int|
                    0 <= k < had.len() && (#[trigger] had[k]).path == Some(path);
                assert(list[k].path == Some(path));
            },
            Some(refusal) => {
                let note = (shown(path, ctx.root@, ctx.home@), refusal_text(refusal));
                let k = choose|k: int| 0 <= k < knew.len() && knew[k] == note;
                assert(told[k] == note);
            },
        }
    } else {
        match verdict(path, roots, Tier::User, env, host) {
            None => {
                assert(list[had.len() as int].path == Some(path));
            },
            Some(refusal) => {
                let note = (shown(path, ctx.root@, ctx.home@), refusal_text(refusal));
                assert(told[knew.len() as int] == note);
            },
        }
    }
}

/// Whether the group is for this kind, and either offers the directory or
/// tells why not.
pub open spec fn offered_or_refused(
    g: GroupModel,
    x: (ArtifactKind, Seq<char>),
    ctx: &Ctx,
    config: &Config,
    env: &SafetyEnv,
    host: &Host,
) -> bool {
    let roots = expanded_all(text::texts(config.purge.roots@), ctx.root@, ctx.home@);
    &&& g.rule_id == kind_id(x.0)
    &&& match verdict(x.1, roots, Tier::User, env, host) {
        None => exists|k: int|
            0 <= k < g.candidates.len() && (#[trigger] g.candidates[k]).path == Some(x.1),
        Some(refusal) => g.skipped.contains(
            (shown(x.1, ctx.root@, ctx.home@), refusal_text(refusal)),
        ),
    }
}

/// Whatever output there is below a configured directory is offered in the
/// group of its kind, or refused there with the reason.
pub proof fn law_all_output_is_offered_or_refused(
    ctx: &Ctx,
    config: &Config,
    whitelist: &Whitelist,
    env: &SafetyEnv,
    host: &Host,
    r: int,
    way: Seq<Seq<char>>,
    x: (ArtifactKind, Seq<char>),
)
    requires
        named(host),
        0 <= r < config.purge.roots@.len(),
        ({
            let root = expanded(config.purge.roots@[r]@, ctx.root@, ctx.home@);
            &&& root.len() > 0
            &&& host.found(root) is Some
            &&& host.found(root)->0.leads_to_dir
            &&& artifact_at(x, root, way, host)
        }),
    ensures
        exists|i: int|
            0 <= i < purge_groups(ctx, config, whitelist, env, host).len() && offered_or_refused(
                #[trigger] purge_groups(ctx, config, whitelist, env, host)[i],
                x,
                ctx,
                config,
                env,
                host,
            ),
{
    let roots = expanded_all(text::texts(config.purge.roots@), ctx.root@, ctx.home@);
    let found = walked_roots(roots, roots.len() as int, host);
    assert(text::texts(config.purge.roots@)[r] == config.purge.roots@[r]@);
    lemma_artifact_seen(roots[r], host, x, way);
    lemma_walked_roots(roots, roots.len() as int, host, r, x);
    let j = choose|j: int| 0 <= j < found.len() && found[j] == x;
    lemma_offered_or_told(found, found.len() as int, x.0, ctx, config, whitelist, env, host, j);
    let i = match x.0 {
        ArtifactKind::NodeModules => 0int,
        ArtifactKind::CargoTarget => 1,
        ArtifactKind::PyVenv => 2,
        ArtifactKind::DistBuild => 3,
        ArtifactKind::NextBuild => 4,
        ArtifactKind::Pycache => 5,
        ArtifactKind::Gradle => 6,
        ArtifactKind::MypyCache => 7,
        ArtifactKind::PytestCache => 8,
    };
    assert(all_kinds()[i] == x.0);
    let g = purge_groups(ctx, config, whitelist, env, host)[i];
    assert(g == kind_group(found, x.0, ctx, config, whitelist, env, host));
    assert(offered_or_refused(g, x, ctx, config, env, host));
}

/// The kinds of artifacts go by these names.
pub proof fn law_kinds_have_their_names()
    ensures
        kind_id(ArtifactKind::NodeModules) == "purge.node_modules"@,
        kind_id(ArtifactKind::CargoTarget) == "purge.cargo_target"@,
        kind_id(ArtifactKind::PyVenv) == "purge.py_venv"@,
        kind_id(ArtifactKind::DistBuild) == "purge.dist_build"@,
        kind_id(ArtifactKind::NextBuild) == "purge.next_build"@,
        kind_id(ArtifactKind::Pycache) == "purge.pycache"@,
        kind_id(ArtifactKind::Gradle) == "purge.gradle"@,
        kind_id(ArtifactKind::MypyCache) == "purge.mypy_cache"@,
        kind_id(ArtifactKind::PytestCache) == "purge.pytest_cache"@,
{
}

} // verus!

//! Caches and trash of the user.

use vstd::prelude::*;

use crate::config::Config;
use crate::ctx::Ctx;
use crate::host;
use crate::host::{process_running, Host};
use crate::item::{candidates, fresh, Candidate, CandidateModel, Risk};
use crate::paths;
use crate::rules::{
    models, strs, Action, Applicability, ApplicabilityModel, Detector, DetectorModel, Finder, Rule,
    RuleModel,
};
use crate::rules::dev::{cache, cache_rule};
use crate::text;

verus! {

pub const CACHE_APPS_NOTES: &'static str =
    "Per-app caches under ~/.cache; apps rebuild these as needed.";

pub const THUMBNAILS_NOTES: &'static str = "File managers regenerate thumbnails on demand.";

pub const TRASH_NOTES: &'static str = "Items older than the configured trash retention.";

/// A rule of the user's that deletes what `finder` finds below `dir`.
pub open spec fn found_rule(
    id: Seq<char>,
    title: Seq<char>,
    dir: Seq<char>,
    finder: Finder,
    notes: Seq<char>,
) -> RuleModel {
    RuleModel {
        id,
        title,
        risk: Risk::Safe,
        requires_sudo: false,
        applicable: ApplicabilityModel::Always,
        allowed_prefixes: seq![dir],
        detector: DetectorModel::Fn(finder),
        action: Action::DeletePaths,
        notes,
    }
}

fn found(
    id: &'static str,
    title: &'static str,
    dir: &'static str,
    finder: Finder,
    notes: &'static str,
) -> (r: Rule)
    ensures
        r@ == found_rule(id@, title@, dir@, finder, notes@),
{
    let r = Rule {
        id,
        title,
        risk: Risk::Safe,
        requires_sudo: false,
        applicable: Applicability::Always,
        allowed_prefixes: vec![dir],
        detector: Detector::Fn(finder),
        action: Action::DeletePaths,
        notes,
    };
    assert(strs(r.allowed_prefixes@) =~= seq![dir@]);
    r
}

pub open spec fn table() -> Seq<RuleModel> {
    seq![
        found_rule(
            "user.cache_apps"@,
            "Application caches"@,
            "~/.cache"@,
            Finder::CacheApps,
            CACHE_APPS_NOTES@,
        ),
        cache_rule(
            "user.thumbnails"@,
            "Thumbnail cache"@,
            "~/.cache/thumbnails"@,
            THUMBNAILS_NOTES@,
        ),
        found_rule(
            "user.trash"@,
            "Trash"@,
            "~/.local/share/Trash/files"@,
            Finder::Trash,
            TRASH_NOTES@,
        ),
    ]
}

pub fn rules() -> (r: Vec<Rule>)
    ensures
        models(r@) == table(),
{
    let r = vec![
        found(
            "user.cache_apps",
            "Application caches",
            "~/.cache",
            Finder::CacheApps,
            CACHE_APPS_NOTES,
        ),
        cache("user.thumbnails", "Thumbnail cache", "~/.cache/thumbnails", THUMBNAILS_NOTES),
        found(
            "user.trash",
            "Trash",
            "~/.local/share/Trash/files",
            Finder::Trash,
            TRASH_NOTES,
        ),
    ];
    assert(models(r@) =~= table());
    r
}

/// `~/.cache` children owned by a more specific rule and never offered
/// generically here.
pub open spec fn owned_elsewhere(name: Seq<char>) -> bool {
    name == "thumbnails"@ || name == "paru"@ || name == "pip"@ || name == "go-build"@
}

fn is_owned_elsewhere(name: &str) -> (r: bool)
    ensures
        r == owned_elsewhere(name@),
{
    text::same(name, "thumbnails") || text::same(name, "paru") || text::same(name, "pip")
        || text::same(name, "go-build")
}

/// The candidate for the child `name` of `~/.cache`. It cannot be selected
/// while a process of that name is running.
pub open spec fn cache_app(name: Seq<char>, ctx: &Ctx, host: &Host) -> CandidateModel {
    let path = paths::joined(paths::joined(ctx.home@, ".cache"@), name);
    let busy = host::running(name, ctx, host);
    CandidateModel {
        path: Some(path),
        label: if busy {
            "~/.cache/"@ + name + " (app running)"@
        } else {
            "~/.cache/"@ + name
        },
        bytes: 0,
        selectable: !busy,
        whitelisted: false,
    }
}

/// The candidates for the first `n` names.
pub open spec fn cache_apps(names: Seq<Seq<char>>, n: int, ctx: &Ctx, host: &Host) -> Seq<
    CandidateModel,
>
    decreases n,
{
    if n <= 0 {
        Seq::empty()
    } else if owned_elsewhere(names[n - 1]) {
        cache_apps(names, n - 1, ctx, host)
    } else {
        cache_apps(names, n - 1, ctx, host).push(cache_app(names[n - 1], ctx, host))
    }
}

pub fn cache_apps_detector(ctx: &Ctx, host: &Host) -> (r: Vec<Candidate>)
    ensures
        candidates(r@) == (match host.listing(paths::joined(ctx.home@, ".cache"@)) {
            Some(names) => cache_apps(names, names.len() as int, ctx, host),
            None => Seq::empty(),
        }),
{
    let cache_dir = paths::join(ctx.home.as_str(), ".cache");
    let mut out: Vec<Candidate> = Vec::new();
    assert(candidates(out@) =~= Seq::empty());
    if let Some(names) = host.list(cache_dir.as_str()) {
        let ghost list = text::texts(names@);
        let mut i: usize = 0;
        while i < names.len()
            invariant
                i <= names.len(),
                list == text::texts(names@),
                cache_dir@ == paths::joined(ctx.home@, ".cache"@),
                candidates(out@) == cache_apps(list, i as int, ctx, host),
            decreases names.len() - i,
        {
            let name = names[i].as_str();
            assert(list[i as int] == name@);
            if !is_owned_elsewhere(name) {
                let ghost had = out@;
                let path = paths::join(cache_dir.as_str(), name);
                let busy = process_running(name, ctx, host);
                let mut candidate = Candidate::new(
                    Some(path),
                    text::concat2("~/.cache/", name),
                    0,
                    Risk::Safe,
                );
                if busy {
                    candidate.selectable = false;
                    candidate.label.append(" (app running)");
                }
                assert(candidate@ == cache_app(name@, ctx, host));
                out.push(candidate);
                assert(candidates(out@) =~= candidates(had).push(cache_app(name@, ctx, host)));
            }
            i += 1;
        }
    }
    out
}

/// The candidate for the trashed item `name`.
pub open spec fn trashed(name: Seq<char>, ctx: &Ctx) -> CandidateModel {
    fresh(
        Some(paths::joined(paths::joined(ctx.home@, ".local/share/Trash/files"@), name)),
        "~/.local/share/Trash/files/"@ + name,
        0,
        Risk::Safe,
    )
}

/// Whether the trashed item `name` has been there longer than the retention
/// the settings ask for. What cannot be inspected is left alone.
pub open spec fn trash_due(name: Seq<char>, ctx: &Ctx, days: u32, host: &Host) -> bool {
    match host.found(
        paths::joined(paths::joined(ctx.home@, ".local/share/Trash/files"@), name),
    ) {
        Some(entry) => host.older_than(entry, days),
        None => false,
    }
}

pub open spec fn trash_items(
    names: Seq<Seq<char>>,
    n: int,
    ctx: &Ctx,
    days: u32,
    host: &Host,
) -> Seq<CandidateModel>
    decreases n,
{
    if n <= 0 {
        Seq::empty()
    } else if trash_due(names[n - 1], ctx, days, host) {
        trash_items(names, n - 1, ctx, days, host).push(trashed(names[n - 1], ctx))
    } else {
        trash_items(names, n - 1, ctx, days, host)
    }
}

pub fn trash_detector(ctx: &Ctx, config: &Config, host: &Host) -> (r: Vec<Candidate>)
    ensures
        candidates(r@) == (match host.listing(
            paths::joined(ctx.home@, ".local/share/Trash/files"@),
        ) {
            Some(names) => trash_items(
                names,
                names.len() as int,
                ctx,
                config.clean.trash_older_than_days,
                host,
            ),
            None => Seq::empty(),
        }),
{
    let trash_dir = paths::join(ctx.home.as_str(), ".local/share/Trash/files");
    let days: u32 = config.clean.trash_older_than_days;
    let mut out: Vec<Candidate> = Vec::new();
    assert(candidates(out@) =~= Seq::empty());
    if let Some(names) = host.list(trash_dir.as_str()) {
        let ghost list = text::texts(names@);
        let mut i: usize = 0;
        while i < names.len()
            invariant
                i <= names.len(),
                list == text::texts(names@),
                trash_dir@ == paths::joined(ctx.home@, ".local/share/Trash/files"@),
                candidates(out@) == trash_items(list, i as int, ctx, days, host),
            decreases names.len() - i,
        {
            let name = names[i].as_str();
            assert(list[i as int] == name@);
            let path = paths::join(trash_dir.as_str(), name);
            let due = match host.find(path.as_str()) {
                Some(entry) => host.is_older_than(entry, days),
                None => false,
            };
            if due {
                let ghost had = out@;
                out.push(
                    Candidate::new(
                        Some(path),
                        text::concat2("~/.local/share/Trash/files/", name),
                        0,
                        Risk::Safe,
                    ),
                );
                assert(candidates(out@) =~= candidates(had).push(trashed(name@, ctx)));
            }
            i += 1;
        }
    }
    out
}

// ------------------------------------------------------------------------ laws


/// Whether `dir` is a directory's path as it is written: not empty, with no
/// slash at its end.
pub open spec fn written_dir(dir: Seq<char>) -> bool {
    dir.len() > 0 && dir.last() != '/'
}

/// Whether all of these can be names in a directory.
pub open spec fn entry_names(names: Seq<Seq<char>>) -> bool {
    forall|i: int| 0 <= i < names.len() ==> paths::entry_name(#[trigger] names[i])
}

/// Whether a process of this name runs outside a sandbox.
pub open spec fn in_use(name: Seq<char>, ctx: &Ctx, host: &Host) -> bool {
    !ctx.sandboxed && exists|i: int|
        0 <= i < host.processes@.len() && (#[trigger] host.processes@[i])@ == name
}

/// Whether this offers the cache of the application `name`: to be selected
/// unless the application runs, which its label then tells.
pub open spec fn offers_cache(
    c: CandidateModel,
    name: Seq<char>,
    ctx: &Ctx,
    host: &Host,
) -> bool {
    &&& c.path == Some(ctx.home@ + "/.cache/"@ + name)
    &&& in_use(name, ctx, host) ==> !c.selectable && c.label == "~/.cache/"@ + name
        + " (app running)"@
    &&& !in_use(name, ctx, host) ==> c.selectable && c.label == "~/.cache/"@ + name
    &&& !c.whitelisted
}

proof fn lemma_cache_path(home: Seq<char>, name: Seq<char>)
    requires
        written_dir(home),
        paths::entry_name(name),
    ensures
        paths::joined(paths::joined(home, ".cache"@), name) == home + "/.cache/"@ + name,
{
    reveal_strlit(".cache");
    reveal_strlit("/.cache/");
    reveal_strlit("/");
    reveal_strlit(".");
    reveal_strlit("..");
    assert(".cache"@ =~= seq!['.', 'c', 'a', 'c', 'h', 'e']);
    assert("/.cache/"@ =~= seq!['/'] + ".cache"@ + seq!['/']);
    paths::law_a_child_adds_its_name(home, ".cache"@);
    let dir = paths::child(home, ".cache"@);
    assert(dir.last() == 'e');
    paths::law_a_child_adds_its_name(dir, name);
    assert(paths::child(dir, name) =~= home + "/.cache/"@ + name);
}

proof fn lemma_in_use(name: Seq<char>, ctx: &Ctx, host: &Host)
    ensures
        host::running(name, ctx, host) <==> in_use(name, ctx, host),
{
    let list = text::texts(host.processes@);
    if list.contains(name) {
        let i = choose|i: int| 0 <= i < list.len() && list[i] == name;
        assert(host.processes@[i]@ == name);
    }
    if in_use(name, ctx, host) {
        let i = choose|i: int|
            0 <= i < host.processes@.len() && (#[trigger] host.processes@[i])@ == name;
        assert(list[i] == name);
    }
}

/// Whether the name has a rule of its own.
pub open spec fn has_own_rule(name: Seq<char>) -> bool {
    seq!["thumbnails"@, "paru"@, "pip"@, "go-build"@].contains(name)
}

/// Every application that has something in `~/.cache` is offered, each for
/// itself; only what a rule of its own takes care of is left to that. What a
/// running process is named after cannot be selected, all else can.
pub proof fn law_running_apps_keep_their_caches(
    names: Seq<Seq<char>>,
    n: int,
    ctx: &Ctx,
    host: &Host,
)
    requires
        0 <= n <= names.len(),
        entry_names(names),
        written_dir(ctx.home@),
    ensures
        ({
            let list = cache_apps(names, n, ctx, host);
            &&& forall|j: int|
                0 <= j < n && !has_own_rule(#[trigger] names[j]) ==> exists|k: int|
                    0 <= k < list.len() && offers_cache(#[trigger] list[k], names[j], ctx, host)
            &&& forall|k: int|
                0 <= k < list.len() ==> exists|j: int|
                    0 <= j < n && !has_own_rule(#[trigger] names[j]) && offers_cache(
                        #[trigger] list[k],
                        names[j],
                        ctx,
                        host,
                    )
        }),
    decreases n,
{
    if n > 0 {
        law_running_apps_keep_their_caches(names, n - 1, ctx, host);
        let before = cache_apps(names, n - 1, ctx, host);
        let list = cache_apps(names, n, ctx, host);
        let name = names[n - 1];
        lemma_cache_path(ctx.home@, name);
        lemma_in_use(name, ctx, host);
        let own = seq!["thumbnails"@, "paru"@, "pip"@, "go-build"@];
        assert(has_own_rule(name) <==> owned_elsewhere(name)) by {
            assert(own[0] == "thumbnails"@ && own[1] == "paru"@);
            assert(own[2] == "pip"@ && own[3] == "go-build"@);
        }
        if !has_own_rule(name) {
            assert(offers_cache(list[before.len() as int], name, ctx, host));
        }
        assert forall|j: int| 0 <= j < n && !has_own_rule(#[trigger] names[j]) implies exists|
            k: int,
        |
            0 <= k < list.len() && offers_cache(#[trigger] list[k], names[j], ctx, host) by {
            if j < n - 1 {
                let k = choose|k: int|
                    0 <= k < before.len() && offers_cache(
                        #[trigger] before[k],
                        names[j],
                        ctx,
                        host,
                    );
                assert(offers_cache(list[k], names[j], ctx, host));
            }
        }
        assert forall|k: int| 0 <= k < list.len() implies exists|j: int|
            0 <= j < n && !has_own_rule(#[trigger] names[j]) && offers_cache(
                #[trigger] list[k],
                names[j],
                ctx,
                host,
            ) by {
            if k < before.len() {
                assert(before[k] == list[k]);
                let j = choose|j: int|
                    0 <= j < n - 1 && !has_own_rule(#[trigger] names[j]) && offers_cache(
                        before[k],
                        names[j],
                        ctx,
                        host,
                    );
                assert(offers_cache(list[k], names[j], ctx, host));
            } else {
                assert(offers_cache(list[k], names[n - 1], ctx, host));
            }
        }
    }
}

/// Whether this is the trashed item `name`, to be selected.
pub open spec fn offers_trashed(c: CandidateModel, name: Seq<char>, ctx: &Ctx) -> bool {
    &&& c.path == Some(ctx.home@ + "/.local/share/Trash/files/"@ + name)
    &&& c.label == "~/.local/share/Trash/files/"@ + name
    &&& c.selectable
    &&& !c.whitelisted
}

/// Whether the trashed item was last changed so many days ago or more.
pub open spec fn lain_for(name: Seq<char>, ctx: &Ctx, days: u32, host: &Host) -> bool {
    let path = ctx.home@ + "/.local/share/Trash/files/"@ + name;
    &&& host.found(path) is Some
    &&& host.found(path)->0.modified is Some
    &&& host.found(path)->0.modified->0 + days * 86_400_000_000_000 <= host.now
}

proof fn lemma_trash_path(home: Seq<char>, name: Seq<char>)
    requires
        written_dir(home),
        paths::entry_name(name),
    ensures
        paths::joined(paths::joined(home, ".local/share/Trash/files"@), name) == home
            + "/.local/share/Trash/files/"@ + name,
{
    reveal_strlit(".local/share/Trash/files");
    reveal_strlit("/.local/share/Trash/files/");
    reveal_strlit("/");
    let dir = home + seq!['/'] + ".local/share/Trash/files"@;
    assert("/.local/share/Trash/files/"@ =~= seq!['/'] + ".local/share/Trash/files"@ + seq!['/']);
    assert("/"@ =~= seq!['/']);
    assert(paths::joined(home, ".local/share/Trash/files"@) =~= dir);
    assert(dir.last() == 's');
    paths::law_a_child_adds_its_name(dir, name);
    assert(paths::child(dir, name) =~= home + "/.local/share/Trash/files/"@ + name);
}

/// What has lain in the trash for the configured days is offered, and what
/// has not, or cannot be told, is not.
pub proof fn law_old_trash_is_offered(
    names: Seq<Seq<char>>,
    n: int,
    ctx: &Ctx,
    days: u32,
    host: &Host,
)
    requires
        0 <= n <= names.len(),
        entry_names(names),
        written_dir(ctx.home@),
    ensures
        ({
            let list = trash_items(names, n, ctx, days, host);
            &&& forall|j: int|
                0 <= j < n && lain_for(#[trigger] names[j], ctx, days, host) ==> exists|k: int|
                    0 <= k < list.len() && offers_trashed(#[trigger] list[k], names[j], ctx)
            &&& forall|k: int|
                0 <= k < list.len() ==> exists|j: int|
                    0 <= j < n && lain_for(#[trigger] names[j], ctx, days, host) && offers_trashed(
                        #[trigger] list[k],
                        names[j],
                        ctx,
                    )
        }),
    decreases n,
{
    if n > 0 {
        law_old_trash_is_offered(names, n - 1, ctx, days, host);
        let before = trash_items(names, n - 1, ctx, days, host);
        let list = trash_items(names, n, ctx, days, host);
        let name = names[n - 1];
        lemma_trash_path(ctx.home@, name);
        if lain_for(name, ctx, days, host) {
            assert(offers_trashed(list[before.len() as int], name, ctx));
        }
        assert forall|j: int| 0 <= j < n && lain_for(#[trigger] names[j], ctx, days, host) implies exists|
            k: int,
        |
            0 <= k < list.len() && offers_trashed(#[trigger] list[k], names[j], ctx) by {
            if j < n - 1 {
                let k = choose|k: int|
                    0 <= k < before.len() && offers_trashed(#[trigger] before[k], names[j], ctx);
                assert(offers_trashed(list[k], names[j], ctx));
            }
        }
        assert forall|k: int| 0 <= k < list.len() implies exists|j: int|
            0 <= j < n && lain_for(#[trigger] names[j], ctx, days, host) && offers_trashed(
                #[trigger] list[k],
                names[j],
                ctx,
            ) by {
            if k < before.len() {
                assert(before[k] == list[k]);
                let j = choose|j: int|
                    0 <= j < n - 1 && lain_for(#[trigger] names[j], ctx, days, host)
                        && offers_trashed(before[k], names[j], ctx);
                assert(offers_trashed(list[k], names[j], ctx));
            } else {
                assert(offers_trashed(list[k], names[n - 1], ctx));
            }
        }
    }
}

} // verus!

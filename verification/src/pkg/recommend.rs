//! Advisory badges for the uninstall picker's Applications view: hints about
//! which installed apps might be worth removing. Every hint is a guess and
//! never changes what actually gets removed.
//!
//! - `Duplicate`: the same app installed via two or more backends, matched by
//!   normalized display name or flatpak app-id.
//! - `Unused`: the app's own `~/.cache` and `~/.config` directories have not
//!   been touched in a while. Absence of evidence is never taken for evidence
//!   of non-use: an app with no such directories gets no hint.
//! - `Overlap`: three or more installed apps share the same main category.

use vstd::prelude::*;

use crate::config::Config;
use crate::ctx::Ctx;
use crate::host::Host;
use crate::order;
use crate::order::{is_list_before, path_key_list};
use crate::paths;
use crate::pkg::{packages, Backend, InstalledPackage, PackageModel};
use crate::pkg::desktop::{desktop_apps, AppModel, Category, DesktopApp};
use crate::text;
use crate::text::{chars_of, is_white, lower_char};

verus! {

broadcast use vstd::seq::group_seq_axioms;

/// An app of the picker and the package behind it.
#[derive(Debug, PartialEq)]
pub struct AppEntry {
    pub display_name: String,
    pub package_index: usize,
}

pub open spec fn entries(v: Seq<AppEntry>) -> Seq<(Seq<char>, usize)> {
    Seq::new(v.len(), |i: int| (v[i].display_name@, v[i].package_index))
}

/// One hint for the package at `package_index`.
#[derive(Debug, Clone, Copy, PartialEq, Structural, Eq)]
pub struct Recommendation {
    pub package_index: usize,
    pub kind: Kind,
}

#[derive(Debug, Clone, Copy, PartialEq, Structural, Eq)]
pub enum Kind {
    /// The same app is also installed via `other_backend`.
    Duplicate { other_backend: Backend },
    /// Its cache/config directories have not been touched in roughly this
    /// many months.
    Unused { months: u32 },
    /// One of `count` installed apps sharing `category`. `most_used` marks
    /// the one whose directories were touched last, which is a proxy for use
    /// and not a measurement. Without any evidence nobody is marked; a tie
    /// goes to the app listed first.
    Overlap { category: Category, count: usize, most_used: bool },
}

/// Every app belongs to a package of the list.
pub open spec fn indexed(apps: Seq<(Seq<char>, usize)>, n: nat) -> bool {
    forall|i: int| 0 <= i < apps.len() ==> (#[trigger] apps[i]).1 < n
}

// ------------------------------------------------------------------- identity

pub open spec fn ignored(c: char) -> bool {
    text::white(c) || c == '-' || c == '_'
}

/// The first `n` characters in lower case, without white space, `-` and `_`.
pub open spec fn normalized_upto(s: Seq<char>, n: int) -> Seq<char>
    decreases n,
{
    if n <= 0 {
        Seq::empty()
    } else if ignored(s[n - 1]) {
        normalized_upto(s, n - 1)
    } else {
        normalized_upto(s, n - 1) + text::lowercase_char(s[n - 1])
    }
}

pub open spec fn normalized(s: Seq<char>) -> Seq<char> {
    normalized_upto(s, s.len() as int)
}

/// "Foo App", "foo-app" and "foo_app" are all the same.
pub fn normalize(s: &str) -> (r: String)
    ensures
        r@ == normalized(s@),
{
    let v = chars_of(s);
    let mut out = String::new();
    let mut i: usize = 0;
    while i < v.len()
        invariant
            i <= v.len(),
            v@ == s@,
            out@ == normalized_upto(s@, i as int),
        decreases v.len() - i,
    {
        let c = v[i];
        if !is_white(c) && c != '-' && c != '_' {
            let lower = lower_char(c);
            out.append(lower.as_str());
        }
        i += 1;
    }
    out
}

proof fn lemma_normalized_prefix(s: Seq<char>, t: Seq<char>, n: int)
    requires
        0 <= n <= s.len(),
        n <= t.len(),
        s.take(n) == t.take(n),
    ensures
        normalized_upto(s, n) == normalized_upto(t, n),
    decreases n,
{
    if n > 0 {
        assert(s[n - 1] == s.take(n)[n - 1]);
        assert(t[n - 1] == t.take(n)[n - 1]);
        assert(s.take(n - 1) =~= s.take(n).take(n - 1));
        assert(t.take(n - 1) =~= t.take(n).take(n - 1));
        lemma_normalized_prefix(s, t, n - 1);
    }
}

/// White space, dashes and underscores make no difference to an identity,
/// wherever they stand.
pub proof fn law_normalization_ignores_separators(a: Seq<char>, c: char, b: Seq<char>)
    requires
        ignored(c),
    ensures
        normalized(a + seq![c] + b) == normalized(a + b),
    decreases b.len(),
{
    let s = a + seq![c] + b;
    let t = a + b;
    if b.len() == 0 {
        assert(t =~= a);
        assert(s.take(a.len() as int) =~= a.take(a.len() as int));
        lemma_normalized_prefix(s, a, a.len() as int);
        assert(s[a.len() as int] == c);
    } else {
        let shorter = b.drop_last();
        law_normalization_ignores_separators(a, c, shorter);
        let s1 = a + seq![c] + shorter;
        let t1 = a + shorter;
        assert(s.take(s1.len() as int) =~= s1.take(s1.len() as int));
        assert(t.take(t1.len() as int) =~= t1.take(t1.len() as int));
        lemma_normalized_prefix(s, s1, s1.len() as int);
        lemma_normalized_prefix(t, t1, t1.len() as int);
        assert(s[s.len() - 1] == b.last());
        assert(t[t.len() - 1] == b.last());
    }
}

/// What follows the last point; the whole where there is none.
pub open spec fn last_segment(s: Seq<char>) -> Seq<char> {
    match text::last_halves(s, "."@) {
        Some((_, last)) => last,
        None => s,
    }
}

pub fn last_segment_of(s: &str) -> (r: String)
    ensures
        r@ == last_segment(s@),
{
    proof {
        reveal_strlit(".");
    }
    match text::cut_at_last(s, ".") {
        Some((_, last)) => last,
        None => s.to_owned(),
    }
}

/// What an app is known by: the last segment of a flatpak's id, else the
/// display name, normalized.
pub open spec fn app_identity(app: (Seq<char>, usize), list: Seq<PackageModel>) -> Seq<char> {
    let p = list[app.1 as int];
    if p.backend == Backend::Flatpak {
        normalized(last_segment(p.id))
    } else {
        normalized(app.0)
    }
}

pub fn identity(app: &AppEntry, list: &Vec<InstalledPackage>) -> (r: String)
    requires
        app.package_index < list.len(),
    ensures
        r@ == app_identity((app.display_name@, app.package_index), packages(list@)),
{
    let p = &list[app.package_index];
    if p.backend == Backend::Flatpak {
        let last = last_segment_of(p.id.as_str());
        normalize(last.as_str())
    } else {
        normalize(app.display_name.as_str())
    }
}

// ------------------------------------------------------------------ duplicates

/// The backend of the first app from `from` on that is the same as app `i`
/// but installed another way.
pub open spec fn other_way(
    apps: Seq<(Seq<char>, usize)>,
    list: Seq<PackageModel>,
    i: int,
    from: int,
) -> Option<Backend>
    decreases apps.len() - from,
{
    if from < 0 || from >= apps.len() {
        None
    } else if app_identity(apps[from], list) == app_identity(apps[i], list)
        && list[apps[from].1 as int].backend != list[apps[i].1 as int].backend {
        Some(list[apps[from].1 as int].backend)
    } else {
        other_way(apps, list, i, from + 1)
    }
}

/// Whether no app before `i` is the same.
pub open spec fn leads(apps: Seq<(Seq<char>, usize)>, list: Seq<PackageModel>, i: int) -> bool {
    forall|j: int|
        0 <= j < i ==> app_identity(#[trigger] apps[j], list) != app_identity(apps[i], list)
}

/// The hints among the first `n` apps that are the same as app `lead`.
pub open spec fn group_hints(
    apps: Seq<(Seq<char>, usize)>,
    list: Seq<PackageModel>,
    lead: int,
    n: int,
) -> Seq<Recommendation>
    decreases n,
{
    if n <= 0 {
        Seq::empty()
    } else {
        let before = group_hints(apps, list, lead, n - 1);
        if app_identity(apps[n - 1], list) == app_identity(apps[lead], list) {
            match other_way(apps, list, n - 1, 0) {
                Some(other_backend) => before.push(
                    (Recommendation {
                        package_index: apps[n - 1].1,
                        kind: Kind::Duplicate { other_backend },
                    }),
                ),
                None => before,
            }
        } else {
            before
        }
    }
}

/// The hints for the groups that the first `n` apps lead.
pub open spec fn duplicate_hints(apps: Seq<(Seq<char>, usize)>, list: Seq<PackageModel>, n: int) -> Seq<
    Recommendation,
>
    decreases n,
{
    if n <= 0 {
        Seq::empty()
    } else if leads(apps, list, n - 1) {
        duplicate_hints(apps, list, n - 1) + group_hints(apps, list, n - 1, apps.len() as int)
    } else {
        duplicate_hints(apps, list, n - 1)
    }
}

fn find_other_way(
    apps: &Vec<AppEntry>,
    ids: &Vec<String>,
    list: &Vec<InstalledPackage>,
    i: usize,
) -> (r: Option<Backend>)
    requires
        i < apps.len(),
        ids.len() == apps.len(),
        indexed(entries(apps@), list@.len()),
        forall|k: int|
            0 <= k < ids.len() ==> (#[trigger] ids@[k])@ == app_identity(
                entries(apps@)[k],
                packages(list@),
            ),
    ensures
        r == other_way(entries(apps@), packages(list@), i as int, 0),
{
    let ghost all = entries(apps@);
    let ghost models = packages(list@);
    let mut j: usize = 0;
    assert(all[i as int] == (apps@[i as int].display_name@, apps@[i as int].package_index));
    while j < apps.len()
        invariant
            j <= apps.len(),
            i < apps.len(),
            ids.len() == apps.len(),
            all == entries(apps@),
            models == packages(list@),
            indexed(all, list@.len()),
            all[i as int] == (apps@[i as int].display_name@, apps@[i as int].package_index),
            forall|k: int|
                0 <= k < ids.len() ==> (#[trigger] ids@[k])@ == app_identity(all[k], models),
            other_way(all, models, i as int, 0) == other_way(all, models, i as int, j as int),
        decreases apps.len() - j,
    {
        assert(all[j as int] == (apps@[j as int].display_name@, apps@[j as int].package_index));
        let other = list[apps[j].package_index].backend;
        if ids[j] == ids[i] && other != list[apps[i].package_index].backend {
            return Some(other);
        }
        j += 1;
    }
    None
}

/// The same app by two or more backends: every such app is badged with
/// another backend that has it.
pub fn duplicates(apps: &Vec<AppEntry>, list: &Vec<InstalledPackage>) -> (r: Vec<Recommendation>)
    requires
        indexed(entries(apps@), list@.len()),
    ensures
        r@ == duplicate_hints(entries(apps@), packages(list@), apps@.len() as int),
{
    let ghost all = entries(apps@);
    let ghost models = packages(list@);
    let mut ids: Vec<String> = Vec::new();
    let mut k: usize = 0;
    while k < apps.len()
        invariant
            k <= apps.len(),
            ids.len() == k,
            all == entries(apps@),
            models == packages(list@),
            indexed(all, list@.len()),
            forall|j: int| 0 <= j < k ==> (#[trigger] ids@[j])@ == app_identity(all[j], models),
        decreases apps.len() - k,
    {
        assert(all[k as int] == (apps@[k as int].display_name@, apps@[k as int].package_index));
        ids.push(identity(&apps[k], list));
        k += 1;
    }
    let mut out: Vec<Recommendation> = Vec::new();
    let mut lead: usize = 0;
    while lead < apps.len()
        invariant
            lead <= apps.len(),
            ids.len() == apps.len(),
            all == entries(apps@),
            models == packages(list@),
            indexed(all, list@.len()),
            forall|j: int|
                0 <= j < ids.len() ==> (#[trigger] ids@[j])@ == app_identity(all[j], models),
            out@ == duplicate_hints(all, models, lead as int),
        decreases apps.len() - lead,
    {
        let mut first = true;
        let mut j: usize = 0;
        while j < lead && first
            invariant
                j <= lead < apps.len(),
                ids.len() == apps.len(),
                forall|m: int|
                    0 <= m < ids.len() ==> (#[trigger] ids@[m])@ == app_identity(
                        all[m],
                        models,
                    ),
                first ==> forall|m: int|
                    0 <= m < j ==> app_identity(#[trigger] all[m], models) != app_identity(
                        all[lead as int],
                        models,
                    ),
                !first ==> !leads(all, models, lead as int),
            decreases lead - j + (if first {
                1int
            } else {
                0int
            }),
        {
            assert(ids@[j as int]@ == app_identity(all[j as int], models));
            assert(ids@[lead as int]@ == app_identity(all[lead as int], models));
            if ids[j] == ids[lead] {
                first = false;
            } else {
                j += 1;
            }
        }
        if first {
            let ghost had = out@;
            let mut m: usize = 0;
            assert(out@ =~= had + group_hints(all, models, lead as int, 0));
            while m < apps.len()
                invariant
                    m <= apps.len(),
                    lead < apps.len(),
                    ids.len() == apps.len(),
                    all == entries(apps@),
                    models == packages(list@),
                    indexed(all, list@.len()),
                    forall|j: int|
                        0 <= j < ids.len() ==> (#[trigger] ids@[j])@ == app_identity(
                            all[j],
                            models,
                        ),
                    out@ == had + group_hints(all, models, lead as int, m as int),
                decreases apps.len() - m,
            {
                assert(all[m as int] == (
                    apps@[m as int].display_name@,
                    apps@[m as int].package_index,
                ));
                let ghost now = out@;
                if ids[m] == ids[lead] {
                    if let Some(other_backend) = find_other_way(apps, &ids, list, m) {
                        out.push(
                            Recommendation {
                                package_index: apps[m].package_index,
                                kind: Kind::Duplicate { other_backend },
                            },
                        );
                    }
                }
                m += 1;
                assert(out@ =~= had + group_hints(all, models, lead as int, m as int));
            }
        }
        lead += 1;
    }
    out
}

// ---------------------------------------------------------------------- unused

/// The names an app's directories may have: its own, and that in lower case.
pub open spec fn variants(name: Seq<char>) -> Seq<Seq<char>> {
    if text::lowercase(name) == name {
        seq![name]
    } else {
        seq![name, text::lowercase(name)]
    }
}

pub fn name_variants(name: &str) -> (r: Vec<String>)
    ensures
        text::texts(r@) == variants(name@),
{
    let lower = name.to_lowercase();
    if text::same(lower.as_str(), name) {
        text::list1(name)
    } else {
        text::list2(name, lower.as_str())
    }
}

/// How long ago a path was touched; absent for what is not there, has no
/// known time, or was touched in the future.
pub open spec fn age(path: Seq<char>, host: &Host) -> Option<int> {
    match host.found(path) {
        Some(entry) => match entry.modified {
            Some(then) => if then <= host.now {
                Some(host.now - then)
            } else {
                None
            },
            None => None,
        },
        None => None,
    }
}

fn age_of(path: &str, host: &Host) -> (r: Option<i128>)
    ensures
        opt_age(r) == age(path@, host),
        r is Some ==> 0 <= r->Some_0 <= 0x1_0000_0000_0000_0000,
{
    match host.find(path) {
        Some(entry) => match entry.modified {
            Some(then) => if then <= host.now {
                Some(host.now as i128 - then as i128)
            } else {
                None
            },
            None => None,
        },
        None => None,
    }
}

pub open spec fn opt_age(o: Option<i128>) -> Option<int> {
    match o {
        Some(n) => Some(n as int),
        None => None,
    }
}

pub open spec fn fresher(a: Option<int>, b: Option<int>) -> Option<int> {
    match (a, b) {
        (Some(x), Some(y)) => Some(
            if y < x {
                y
            } else {
                x
            },
        ),
        (None, _) => b,
        (_, None) => a,
    }
}

/// How long ago any of the cache and config directories under the first `n`
/// names was touched; absent without any evidence.
pub open spec fn freshest(names: Seq<Seq<char>>, n: int, ctx: &Ctx, host: &Host) -> Option<int>
    decreases n,
{
    if n <= 0 {
        None
    } else {
        let cache = paths::joined(paths::joined(ctx.home@, ".cache"@), names[n - 1]);
        let config = paths::joined(paths::joined(ctx.home@, ".config"@), names[n - 1]);
        fresher(
            fresher(freshest(names, n - 1, ctx, host), age(cache, host)),
            age(config, host),
        )
    }
}

pub open spec fn activity(name: Seq<char>, ctx: &Ctx, host: &Host) -> Option<int> {
    freshest(variants(name), variants(name).len() as int, ctx, host)
}

fn fresher_of(a: Option<i128>, b: Option<i128>) -> (r: Option<i128>)
    requires
        a is Some ==> 0 <= a->Some_0 <= 0x1_0000_0000_0000_0000,
        b is Some ==> 0 <= b->Some_0 <= 0x1_0000_0000_0000_0000,
    ensures
        opt_age(r) == fresher(opt_age(a), opt_age(b)),
        r is Some ==> 0 <= r->Some_0 <= 0x1_0000_0000_0000_0000,
{
    match (a, b) {
        (Some(x), Some(y)) => if y < x {
            Some(y)
        } else {
            Some(x)
        },
        (None, _) => b,
        (_, None) => a,
    }
}

/// How long ago, in nanoseconds, anything of a package's own was touched.
///
/// A directory's time is a coarse signal: it only changes when an entry is
/// added or removed directly inside it, and a link reports its own time.
pub fn activity_age(package: &InstalledPackage, ctx: &Ctx, host: &Host) -> (r: Option<i128>)
    ensures
        opt_age(r) == activity(package.name@, ctx, host),
        r is Some ==> 0 <= r->Some_0 <= 0x1_0000_0000_0000_0000,
{
    let names = name_variants(package.name.as_str());
    let ghost all = text::texts(names@);
    let cache = paths::join(ctx.home.as_str(), ".cache");
    let config = paths::join(ctx.home.as_str(), ".config");
    let mut best: Option<i128> = None;
    let mut i: usize = 0;
    assert(all.len() == names.len());
    while i < names.len()
        invariant
            i <= names.len(),
            all == text::texts(names@),
            cache@ == paths::joined(ctx.home@, ".cache"@),
            config@ == paths::joined(ctx.home@, ".config"@),
            opt_age(best) == freshest(all, i as int, ctx, host),
            best is Some ==> 0 <= best->Some_0 <= 0x1_0000_0000_0000_0000,
        decreases names.len() - i,
    {
        assert(all[i as int] == names@[i as int]@);
        let name = names[i].as_str();
        let a = paths::join(cache.as_str(), name);
        let b = paths::join(config.as_str(), name);
        best = fresher_of(best, age_of(a.as_str(), host));
        best = fresher_of(best, age_of(b.as_str(), host));
        i += 1;
    }
    best
}

/// Whole months of thirty days, rounded to the nearest.
pub open spec fn months(age: int) -> int {
    (age + 1_296_000_000_000_000) / 2_592_000_000_000_000
}

/// The hint for one app: everything there is was last touched at least
/// `days` days ago.
pub open spec fn unused_hint(
    app: (Seq<char>, usize),
    list: Seq<PackageModel>,
    ctx: &Ctx,
    days: u32,
    host: &Host,
) -> Option<Recommendation> {
    match activity(list[app.1 as int].name, ctx, host) {
        Some(age) => if age >= days * 86_400_000_000_000 {
            Some(
                Recommendation {
                    package_index: app.1,
                    kind: Kind::Unused { months: months(age) as u32 },
                },
            )
        } else {
            None
        },
        None => None,
    }
}

pub open spec fn unused_hints(
    apps: Seq<(Seq<char>, usize)>,
    n: int,
    list: Seq<PackageModel>,
    ctx: &Ctx,
    days: u32,
    host: &Host,
) -> Seq<Recommendation>
    decreases n,
{
    if n <= 0 {
        Seq::empty()
    } else {
        let before = unused_hints(apps, n - 1, list, ctx, days, host);
        match unused_hint(apps[n - 1], list, ctx, days, host) {
            Some(hint) => before.push(hint),
            None => before,
        }
    }
}

pub fn unused(
    apps: &Vec<AppEntry>,
    list: &Vec<InstalledPackage>,
    ctx: &Ctx,
    config: &Config,
    host: &Host,
) -> (r: Vec<Recommendation>)
    requires
        indexed(entries(apps@), list@.len()),
    ensures
        r@ == unused_hints(
            entries(apps@),
            apps@.len() as int,
            packages(list@),
            ctx,
            config.uninstall.unused_days,
            host,
        ),
{
    let ghost all = entries(apps@);
    let ghost models = packages(list@);
    let days: u32 = config.uninstall.unused_days;
    let mut out: Vec<Recommendation> = Vec::new();
    let mut i: usize = 0;
    while i < apps.len()
        invariant
            i <= apps.len(),
            all == entries(apps@),
            models == packages(list@),
            indexed(all, list@.len()),
            out@ == unused_hints(all, i as int, models, ctx, days, host),
        decreases apps.len() - i,
    {
        assert(all[i as int] == (apps@[i as int].display_name@, apps@[i as int].package_index));
        let index: usize = apps[i].package_index;
        if let Some(age) = activity_age(&list[index], ctx, host) {
            if age >= days as i128 * 86_400_000_000_000 {
                let count: i128 = (age + 1_296_000_000_000_000) / 2_592_000_000_000_000;
                out.push(
                    Recommendation {
                        package_index: index,
                        kind: Kind::Unused { months: count as u32 },
                    },
                );
            }
        }
        i += 1;
    }
    out
}

// --------------------------------------------------------------------- overlap

/// The launcher named `name` with a category whose file comes first, among
/// the first `n`.
pub open spec fn first_launcher(apps: Seq<AppModel>, name: Seq<char>, n: int) -> Option<int>
    decreases n,
{
    if n <= 0 {
        None
    } else {
        let before = first_launcher(apps, name, n - 1);
        let app = apps[n - 1];
        if app.display_name == name && app.main_category is Some {
            match before {
                Some(k) => if order::list_before(
                    order::path_key(app.desktop_file),
                    order::path_key(apps[k].desktop_file),
                ) {
                    Some(n - 1)
                } else {
                    before
                },
                None => Some(n - 1),
            }
        } else {
            before
        }
    }
}

/// The category of the app shown as `name`. Where launchers of that name
/// disagree, the one whose file comes first decides, in whatever order the
/// launchers were found.
pub open spec fn category_of(apps: Seq<AppModel>, name: Seq<char>) -> Option<Category> {
    match first_launcher(apps, name, apps.len() as int) {
        Some(k) => apps[k].main_category,
        None => None,
    }
}

fn find_category(apps: &Vec<DesktopApp>, name: &str) -> (r: Option<Category>)
    ensures
        r == category_of(desktop_apps(apps@), name@),
{
    let ghost all = desktop_apps(apps@);
    let mut best: Option<usize> = None;
    let mut i: usize = 0;
    assert(all.len() == apps.len());
    while i < apps.len()
        invariant
            i <= apps.len(),
            all == desktop_apps(apps@),
            best is Some ==> best->Some_0 < i,
            (match best {
                Some(k) => Some(k as int),
                None => None,
            }) == first_launcher(all, name@, i as int),
        decreases apps.len() - i,
    {
        assert(all[i as int] == apps@[i as int]@);
        if text::same(apps[i].display_name.as_str(), name) && apps[i].main_category.is_some() {
            match best {
                Some(k) => {
                    assert(all[k as int] == apps@[k as int]@);
                    let a = path_key_list(apps[i].desktop_file.as_str());
                    let b = path_key_list(apps[k].desktop_file.as_str());
                    if is_list_before(&a, &b) {
                        best = Some(i);
                    }
                },
                None => {
                    best = Some(i);
                },
            }
        }
        i += 1;
    }
    match best {
        Some(k) => {
            assert(all[k as int] == apps@[k as int]@);
            apps[k].main_category
        },
        None => None,
    }
}

pub open spec fn categories(apps: Seq<(Seq<char>, usize)>, launchers: Seq<AppModel>) -> Seq<
    Option<Category>,
> {
    Seq::new(apps.len(), |i: int| category_of(launchers, apps[i].0))
}

/// How many of the first `n` have this category.
pub open spec fn sharing(cats: Seq<Option<Category>>, category: Category, n: int) -> nat
    decreases n,
{
    if n <= 0 {
        0
    } else {
        sharing(cats, category, n - 1) + (if cats[n - 1] == Some(category) {
            1nat
        } else {
            0nat
        })
    }
}

/// Which of the first `n` in this category was touched last.
pub open spec fn busiest(
    cats: Seq<Option<Category>>,
    ages: Seq<Option<int>>,
    category: Category,
    n: int,
) -> Option<int>
    decreases n,
{
    if n <= 0 {
        None
    } else {
        let before = busiest(cats, ages, category, n - 1);
        if cats[n - 1] == Some(category) && ages[n - 1] is Some {
            match before {
                Some(k) => if ages[n - 1]->Some_0 < ages[k]->Some_0 {
                    Some(n - 1)
                } else {
                    before
                },
                None => Some(n - 1),
            }
        } else {
            before
        }
    }
}

pub open spec fn activities(
    apps: Seq<(Seq<char>, usize)>,
    list: Seq<PackageModel>,
    ctx: &Ctx,
    host: &Host,
) -> Seq<Option<int>> {
    Seq::new(apps.len(), |i: int| activity(list[apps[i].1 as int].name, ctx, host))
}

/// The hints for the first `n` apps: those whose category three or more
/// share.
pub open spec fn overlap_hints(
    apps: Seq<(Seq<char>, usize)>,
    cats: Seq<Option<Category>>,
    ages: Seq<Option<int>>,
    n: int,
) -> Seq<Recommendation>
    decreases n,
{
    if n <= 0 {
        Seq::empty()
    } else {
        let before = overlap_hints(apps, cats, ages, n - 1);
        match cats[n - 1] {
            Some(category) => {
                let count = sharing(cats, category, cats.len() as int);
                if count >= 3 {
                    before.push(
                        (Recommendation {
                            package_index: apps[n - 1].1,
                            kind: Kind::Overlap {
                                category,
                                count: count as usize,
                                most_used: busiest(cats, ages, category, cats.len() as int)
                                    == Some(n - 1),
                            },
                        }),
                    )
                } else {
                    before
                }
            },
            None => before,
        }
    }
}

fn count_sharing(cats: &Vec<Option<Category>>, category: Category) -> (r: usize)
    ensures
        r == sharing(cats@, category, cats@.len() as int),
{
    let mut count: usize = 0;
    let mut i: usize = 0;
    while i < cats.len()
        invariant
            i <= cats.len(),
            count == sharing(cats@, category, i as int),
            count <= i,
        decreases cats.len() - i,
    {
        let hit = match cats[i] {
            Some(c) => c == category,
            None => false,
        };
        if hit {
            count += 1;
        }
        i += 1;
    }
    count
}

pub open spec fn age_views(v: Seq<Option<i128>>) -> Seq<Option<int>> {
    Seq::new(v.len(), |i: int| opt_age(v[i]))
}

fn find_busiest(cats: &Vec<Option<Category>>, ages: &Vec<Option<i128>>, category: Category) -> (r:
    Option<usize>)
    requires
        cats.len() == ages.len(),
    ensures
        (match r {
            Some(k) => Some(k as int),
            None => None,
        }) == busiest(cats@, age_views(ages@), category, cats@.len() as int),
{
    let ghost views = age_views(ages@);
    let mut best: Option<usize> = None;
    let mut i: usize = 0;
    while i < cats.len()
        invariant
            i <= cats.len() == ages.len(),
            views == age_views(ages@),
            best is Some ==> best->Some_0 < i && ages@[best->Some_0 as int] is Some,
            (match best {
                Some(k) => Some(k as int),
                None => None,
            }) == busiest(cats@, views, category, i as int),
        decreases cats.len() - i,
    {
        assert(views[i as int] == opt_age(ages@[i as int]));
        let hit = match cats[i] {
            Some(c) => c == category,
            None => false,
        };
        if hit {
            if let Some(age) = ages[i] {
                match best {
                    Some(k) => {
                        assert(views[k as int] == opt_age(ages@[k as int]));
                        if let Some(current) = ages[k] {
                            if age < current {
                                best = Some(i);
                            }
                        }
                    },
                    None => {
                        best = Some(i);
                    },
                }
            }
        }
        i += 1;
    }
    best
}

/// Three or more apps of the same main category are each badged; the one
/// touched last is marked.
pub fn overlaps(
    apps: &Vec<AppEntry>,
    list: &Vec<InstalledPackage>,
    launchers: &Vec<DesktopApp>,
    ctx: &Ctx,
    host: &Host,
) -> (r: Vec<Recommendation>)
    requires
        indexed(entries(apps@), list@.len()),
    ensures
        r@ == overlap_hints(
            entries(apps@),
            categories(entries(apps@), desktop_apps(launchers@)),
            activities(entries(apps@), packages(list@), ctx, host),
            apps@.len() as int,
        ),
{
    let ghost all = entries(apps@);
    let ghost models = packages(list@);
    let ghost want_cats = categories(all, desktop_apps(launchers@));
    let ghost want_ages = activities(all, models, ctx, host);
    let mut cats: Vec<Option<Category>> = Vec::new();
    let mut ages: Vec<Option<i128>> = Vec::new();
    let mut i: usize = 0;
    while i < apps.len()
        invariant
            i <= apps.len(),
            cats.len() == i,
            ages.len() == i,
            all == entries(apps@),
            models == packages(list@),
            indexed(all, list@.len()),
            want_cats == categories(all, desktop_apps(launchers@)),
            want_ages == activities(all, models, ctx, host),
            forall|k: int| 0 <= k < i ==> #[trigger] cats@[k] == want_cats[k],
            forall|k: int| 0 <= k < i ==> opt_age(#[trigger] ages@[k]) == want_ages[k],
        decreases apps.len() - i,
    {
        assert(all[i as int] == (apps@[i as int].display_name@, apps@[i as int].package_index));
        cats.push(find_category(launchers, apps[i].display_name.as_str()));
        ages.push(activity_age(&list[apps[i].package_index], ctx, host));
        i += 1;
    }
    assert(cats@ =~= want_cats);
    assert(age_views(ages@) =~= want_ages);
    let mut out: Vec<Recommendation> = Vec::new();
    let mut j: usize = 0;
    while j < apps.len()
        invariant
            j <= apps.len(),
            cats.len() == apps.len(),
            ages.len() == apps.len(),
            all == entries(apps@),
            cats@ == want_cats,
            age_views(ages@) == want_ages,
            out@ == overlap_hints(all, want_cats, want_ages, j as int),
        decreases apps.len() - j,
    {
        assert(all[j as int] == (apps@[j as int].display_name@, apps@[j as int].package_index));
        if let Some(category) = cats[j] {
            let count = count_sharing(&cats, category);
            if count >= 3 {
                let most_used = match find_busiest(&cats, &ages, category) {
                    Some(k) => k == j,
                    None => false,
                };
                out.push(
                    Recommendation {
                        package_index: apps[j].package_index,
                        kind: Kind::Overlap { category, count, most_used },
                    },
                );
            }
        }
        j += 1;
    }
    out
}

/// Every hint for `apps`.
pub fn recommendations(
    apps: &Vec<AppEntry>,
    list: &Vec<InstalledPackage>,
    launchers: &Vec<DesktopApp>,
    ctx: &Ctx,
    config: &Config,
    host: &Host,
) -> (r: Vec<Recommendation>)
    requires
        indexed(entries(apps@), list@.len()),
    ensures
        r@ == duplicate_hints(entries(apps@), packages(list@), apps@.len() as int) + unused_hints(
            entries(apps@),
            apps@.len() as int,
            packages(list@),
            ctx,
            config.uninstall.unused_days,
            host,
        ) + overlap_hints(
            entries(apps@),
            categories(entries(apps@), desktop_apps(launchers@)),
            activities(entries(apps@), packages(list@), ctx, host),
            apps@.len() as int,
        ),
{
    let mut out = duplicates(apps, list);
    let mut more = unused(apps, list, ctx, config, host);
    out.append(&mut more);
    let mut more = overlaps(apps, list, launchers, ctx, host);
    out.append(&mut more);
    out
}

/// An app that is called unused has a cache or config directory of its own,
/// and none of them was touched within the last `days` days.
pub proof fn law_unused_rests_on_evidence(
    app: (Seq<char>, usize),
    list: Seq<PackageModel>,
    ctx: &Ctx,
    days: u32,
    host: &Host,
    base: Seq<char>,
    k: int,
)
    requires
        unused_hint(app, list, ctx, days, host) is Some,
        base == ".cache"@ || base == ".config"@,
        0 <= k < variants(list[app.1 as int].name).len(),
    ensures
        activity(list[app.1 as int].name, ctx, host) is Some,
        ({
            let dir = paths::joined(
                paths::joined(ctx.home@, base),
                variants(list[app.1 as int].name)[k],
            );
            age(dir, host) is Some ==> age(dir, host)->Some_0 >= days * 86_400_000_000_000
        }),
{
    let names = variants(list[app.1 as int].name);
    lemma_freshest(names, names.len() as int, k, base, ctx, host);
}

proof fn lemma_freshest(
    names: Seq<Seq<char>>,
    n: int,
    k: int,
    base: Seq<char>,
    ctx: &Ctx,
    host: &Host,
)
    requires
        0 <= k < n <= names.len(),
        base == ".cache"@ || base == ".config"@,
    ensures
        ({
            let dir = paths::joined(paths::joined(ctx.home@, base), names[k]);
            age(dir, host) is Some ==> freshest(names, n, ctx, host) is Some && freshest(
                names,
                n,
                ctx,
                host,
            )->Some_0 <= age(dir, host)->Some_0
        }),
    decreases n,
{
    if k < n - 1 {
        lemma_freshest(names, n - 1, k, base, ctx, host);
    }
}

/// The category of an app is that of a launcher of its name, and no other
/// launcher of that name with a category has a file that comes before its.
pub proof fn law_first_file_decides_the_category(apps: Seq<AppModel>, name: Seq<char>, n: int)
    requires
        0 <= n <= apps.len(),
    ensures
        match first_launcher(apps, name, n) {
            Some(k) => {
                &&& 0 <= k < n
                &&& apps[k].display_name == name
                &&& apps[k].main_category is Some
                &&& forall|j: int|
                    #![trigger apps[j]]
                    0 <= j < n && apps[j].display_name == name && apps[j].main_category is Some
                        ==> !order::list_before(
                        order::path_key(apps[j].desktop_file),
                        order::path_key(apps[k].desktop_file),
                    )
            },
            None => forall|j: int|
                #![trigger apps[j]]
                0 <= j < n && apps[j].display_name == name ==> apps[j].main_category is None,
        },
    decreases n,
{
    if n > 0 {
        law_first_file_decides_the_category(apps, name, n - 1);
        let app = apps[n - 1];
        let key = order::path_key(app.desktop_file);
        order::lemma_list_total(key, key);
        if app.display_name == name && app.main_category is Some {
            if let Some(k) = first_launcher(apps, name, n - 1) {
                let old_key = order::path_key(apps[k].desktop_file);
                if order::list_before(key, old_key) {
                    assert forall|j: int|
                        #![trigger apps[j]]
                        0 <= j < n && apps[j].display_name == name && apps[j].main_category is Some
                        implies !order::list_before(
                        order::path_key(apps[j].desktop_file),
                        key,
                    ) by {
                        if j < n - 1 {
                            let other = order::path_key(apps[j].desktop_file);
                            if order::list_before(other, key) {
                                order::lemma_list_transitive(other, key, old_key);
                            }
                        }
                    }
                }
            }
        }
    }
}

// ------------------------------------------------------------------------ laws


/// When something at `path` was touched, where that is known and not still to
/// come.
pub open spec fn touched(path: Seq<char>, host: &Host) -> Option<i64> {
    if host.found(path) is Some && host.found(path)->0.modified is Some && host.found(
        path,
    )->0.modified->0 <= host.now {
        host.found(path)->0.modified
    } else {
        None
    }
}

/// The four places where an app leaves traces.
pub open spec fn traces(name: Seq<char>, home: Seq<char>) -> Seq<Seq<char>> {
    seq![
        home + "/.cache/"@ + name,
        home + "/.config/"@ + name,
        home + "/.cache/"@ + text::lowercase(name),
        home + "/.config/"@ + text::lowercase(name),
    ]
}

proof fn lemma_trace_paths(home: Seq<char>, name: Seq<char>)
    requires
        home.len() > 0,
        home.last() != '/',
        paths::entry_name(name),
    ensures
        paths::joined(paths::joined(home, ".cache"@), name) == home + "/.cache/"@ + name,
        paths::joined(paths::joined(home, ".config"@), name) == home + "/.config/"@ + name,
{
    reveal_strlit("/");
    reveal_strlit(".cache");
    reveal_strlit("/.cache/");
    reveal_strlit(".config");
    reveal_strlit("/.config/");
    assert("/"@ =~= seq!['/']);
    let a = home + "/"@ + ".cache"@;
    let b = home + "/"@ + ".config"@;
    assert(paths::joined(home, ".cache"@) =~= a);
    assert(paths::joined(home, ".config"@) =~= b);
    assert(a.last() == 'e');
    assert(b.last() == 'g');
    paths::law_a_child_adds_its_name(a, name);
    paths::law_a_child_adds_its_name(b, name);
    assert(paths::child(a, name) =~= home + "/.cache/"@ + name);
    assert(paths::child(b, name) =~= home + "/.config/"@ + name);
}

/// An app is told to be unused where it left traces and the last of them is
/// the configured days old; the time is told in months of thirty days.
pub proof fn law_unused_is_long_untouched(
    app: (Seq<char>, usize),
    list: Seq<PackageModel>,
    ctx: &Ctx,
    days: u32,
    host: &Host,
)
    requires
        ctx.home@.len() > 0,
        ctx.home@.last() != '/',
        paths::entry_name(list[app.1 as int].name),
        paths::entry_name(text::lowercase(list[app.1 as int].name)),
    ensures
        ({
            let t = traces(list[app.1 as int].name, ctx.home@);
            let hint = unused_hint(app, list, ctx, days, host);
            &&& hint is Some <==> {
                &&& exists|i: int| 0 <= i < 4 && touched(#[trigger] t[i], host) is Some
                &&& forall|i: int|
                    0 <= i < 4 && touched(#[trigger] t[i], host) is Some ==> touched(
                        t[i],
                        host,
                    )->0 + days * 86_400_000_000_000 <= host.now
            }
            &&& hint is Some ==> hint->0.package_index == app.1
        }),
{
    let name = list[app.1 as int].name;
    let low = text::lowercase(name);
    let home = ctx.home@;
    let t = traces(name, home);
    lemma_trace_paths(home, name);
    lemma_trace_paths(home, low);
    let v = variants(name);
    assert(v[0] == name);
    assert(freshest(v, 0, ctx, host) is None);
    assert(freshest(v, 1, ctx, host) == fresher(
        fresher(None, age(t[0], host)),
        age(t[1], host),
    ));
    if low != name {
        assert(v[1] == low);
        assert(freshest(v, 2, ctx, host) == fresher(
            fresher(freshest(v, 1, ctx, host), age(t[2], host)),
            age(t[3], host),
        ));
    } else {
        assert(t[2] == t[0] && t[3] == t[1]);
    }
    assert forall|i: int| 0 <= i < 4 implies (age(#[trigger] t[i], host) is Some <==> touched(
        t[i],
        host,
    ) is Some) by {}
    let a = activity(name, ctx, host);
    if a is Some {
        assert(touched(t[0], host) is Some || touched(t[1], host) is Some || touched(t[2], host)
            is Some || touched(t[3], host) is Some);
    }
}

/// An age is told as the nearest number of months.
pub proof fn law_months_are_the_nearest(age: int)
    requires
        age >= 0,
    ensures
        months(age) * 2_592_000_000_000_000 <= age + 1_296_000_000_000_000,
        age < months(age) * 2_592_000_000_000_000 + 1_296_000_000_000_000,
{
}

/// Whether the two are the same app, installed in different ways.
pub open spec fn twins(
    a: (Seq<char>, usize),
    b: (Seq<char>, usize),
    list: Seq<PackageModel>,
) -> bool {
    &&& app_identity(a, list) == app_identity(b, list)
    &&& list[a.1 as int].backend != list[b.1 as int].backend
}

/// A flatpak is known by the last part of its id and any other app by its
/// name, both without regard to case and separators.
pub proof fn law_flatpaks_are_known_by_their_id(app: (Seq<char>, usize), list: Seq<PackageModel>)
    ensures
        list[app.1 as int].backend == Backend::Flatpak ==> app_identity(app, list) == normalized(
            last_segment(list[app.1 as int].id),
        ),
        list[app.1 as int].backend != Backend::Flatpak ==> app_identity(app, list) == normalized(
            app.0,
        ),
{
}

proof fn lemma_other_way(
    apps: Seq<(Seq<char>, usize)>,
    list: Seq<PackageModel>,
    i: int,
    from: int,
)
    requires
        0 <= from <= apps.len(),
    ensures
        other_way(apps, list, i, from) is Some <==> exists|j: int|
            from <= j < apps.len() && twins(#[trigger] apps[j], apps[i], list),
    decreases apps.len() - from,
{
    if from < apps.len() {
        lemma_other_way(apps, list, i, from + 1);
        if twins(apps[from], apps[i], list) {
            assert(other_way(apps, list, i, from) is Some);
        } else {
            if exists|j: int| from <= j < apps.len() && twins(#[trigger] apps[j], apps[i], list) {
                let j = choose|j: int|
                    from <= j < apps.len() && twins(#[trigger] apps[j], apps[i], list);
                assert(j >= from + 1);
                assert(twins(apps[j], apps[i], list));
            }
        }
    }
}

/// Whether the list holds a hint that this app is there twice.
pub open spec fn told_twice(hints: Seq<Recommendation>, app: (Seq<char>, usize)) -> bool {
    exists|k: int|
        0 <= k < hints.len() && (#[trigger] hints[k]).package_index == app.1
            && hints[k].kind is Duplicate
}

proof fn lemma_group_tells(
    apps: Seq<(Seq<char>, usize)>,
    list: Seq<PackageModel>,
    lead: int,
    n: int,
    i: int,
)
    requires
        0 <= i < n <= apps.len(),
        app_identity(apps[i], list) == app_identity(apps[lead], list),
        other_way(apps, list, i, 0) is Some,
    ensures
        told_twice(group_hints(apps, list, lead, n), apps[i]),
    decreases n,
{
    let before = group_hints(apps, list, lead, n - 1);
    let now = group_hints(apps, list, lead, n);
    if i < n - 1 {
        lemma_group_tells(apps, list, lead, n - 1, i);
        let k = choose|k: int|
            0 <= k < before.len() && (#[trigger] before[k]).package_index == apps[i].1
                && before[k].kind is Duplicate;
        assert(now[k] == before[k]);
    } else {
        assert(now[before.len() as int].package_index == apps[i].1);
    }
}

proof fn lemma_hints_tell(
    apps: Seq<(Seq<char>, usize)>,
    list: Seq<PackageModel>,
    n: int,
    lead: int,
    i: int,
)
    requires
        0 <= lead < n <= apps.len(),
        0 <= i < apps.len(),
        leads(apps, list, lead),
        app_identity(apps[i], list) == app_identity(apps[lead], list),
        other_way(apps, list, i, 0) is Some,
    ensures
        told_twice(duplicate_hints(apps, list, n), apps[i]),
    decreases n,
{
    let before = duplicate_hints(apps, list, n - 1);
    let now = duplicate_hints(apps, list, n);
    if lead < n - 1 {
        lemma_hints_tell(apps, list, n - 1, lead, i);
        let k = choose|k: int|
            0 <= k < before.len() && (#[trigger] before[k]).package_index == apps[i].1
                && before[k].kind is Duplicate;
        assert(now[k] == before[k]);
    } else {
        let more = group_hints(apps, list, lead, apps.len() as int);
        lemma_group_tells(apps, list, lead, apps.len() as int, i);
        let k = choose|k: int|
            0 <= k < more.len() && (#[trigger] more[k]).package_index == apps[i].1
                && more[k].kind is Duplicate;
        assert(now[before.len() + k] == more[k]);
    }
}

proof fn lemma_leader(apps: Seq<(Seq<char>, usize)>, list: Seq<PackageModel>, i: int) -> (lead:
    int)
    requires
        0 <= i < apps.len(),
    ensures
        0 <= lead <= i,
        leads(apps, list, lead),
        app_identity(apps[i], list) == app_identity(apps[lead], list),
    decreases i,
{
    if leads(apps, list, i) {
        i
    } else {
        let j = choose|j: int|
            0 <= j < i && app_identity(#[trigger] apps[j], list) == app_identity(apps[i], list);
        lemma_leader(apps, list, j)
    }
}

/// Each app that is there a second time, installed another way, is told of.
pub proof fn law_doubly_installed_apps_are_told(
    apps: Seq<(Seq<char>, usize)>,
    list: Seq<PackageModel>,
    i: int,
    j: int,
)
    requires
        0 <= i < apps.len(),
        0 <= j < apps.len(),
        app_identity(apps[i], list) == app_identity(apps[j], list),
        list[apps[i].1 as int].backend != list[apps[j].1 as int].backend,
    ensures
        told_twice(duplicate_hints(apps, list, apps.len() as int), apps[i]),
{
    lemma_other_way(apps, list, i, 0);
    assert(twins(apps[j], apps[i], list));
    let lead = lemma_leader(apps, list, i);
    lemma_hints_tell(apps, list, apps.len() as int, lead, i);
}

proof fn lemma_sharing(cats: Seq<Option<Category>>, category: Category, n: int, i: int)
    requires
        0 <= n <= cats.len(),
    ensures
        sharing(cats, category, n) <= n,
        0 <= i < n && cats[i] == Some(category) ==> sharing(cats, category, n) >= 1,
    decreases n,
{
    if n > 0 {
        lemma_sharing(cats, category, n - 1, i);
    }
}

/// Three apps of one category make it a crowd, and fewer do not.
pub proof fn law_three_are_a_crowd(
    cats: Seq<Option<Category>>,
    category: Category,
    n: int,
    places: Seq<int>,
)
    requires
        0 <= n <= cats.len(),
        forall|k: int| 0 <= k < places.len() ==> 0 <= #[trigger] places[k] < n,
        forall|k: int, m: int|
            0 <= k < m < places.len() ==> #[trigger] places[k] < #[trigger] places[m],
        forall|i: int|
            0 <= i < n ==> ((#[trigger] cats[i]) == Some(category) <==> places.contains(i)),
    ensures
        sharing(cats, category, n) == places.len(),
    decreases n,
{
    if n > 0 {
        let last = n - 1;
        if places.contains(last) {
            let k = choose|k: int| 0 <= k < places.len() && places[k] == last;
            if k < places.len() - 1 {
                assert(places[k] < places[places.len() - 1]);
            }
            let rest = places.drop_last();
            assert forall|i: int| 0 <= i < n - 1 implies ((#[trigger] cats[i]) == Some(category)
                <==> rest.contains(i)) by {
                if places.contains(i) {
                    let m = choose|m: int| 0 <= m < places.len() && places[m] == i;
                    assert(rest[m] == i);
                }
                if rest.contains(i) {
                    let m = choose|m: int| 0 <= m < rest.len() && rest[m] == i;
                    assert(places[m] == i);
                }
            }
            assert forall|m: int| 0 <= m < rest.len() implies 0 <= #[trigger] rest[m] < n - 1 by {
                assert(places[m] < places[places.len() - 1]);
            }
            law_three_are_a_crowd(cats, category, n - 1, rest);
        } else {
            assert forall|m: int| 0 <= m < places.len() implies 0 <= #[trigger] places[m] < n
                - 1 by {
                assert(places.contains(places[m]));
            }
            law_three_are_a_crowd(cats, category, n - 1, places);
        }
    } else {
        if places.len() > 0 {
            assert(0 <= places[0] < n);
        }
    }
}

/// Whether the hint is that this app is one of a crowd.
pub open spec fn tells_crowd(
    hint: Recommendation,
    i: int,
    apps: Seq<(Seq<char>, usize)>,
    cats: Seq<Option<Category>>,
    ages: Seq<Option<int>>,
) -> bool {
    &&& hint.package_index == apps[i].1
    &&& hint.kind is Overlap
    &&& Some(hint.kind->category) == cats[i]
    &&& hint.kind->count >= 3
    &&& hint.kind->count == sharing(cats, cats[i]->0, cats.len() as int)
    &&& hint.kind->most_used ==> ages[i] is Some && forall|j: int|
        0 <= j < cats.len() && #[trigger] cats[j] == cats[i] && ages[j] is Some ==> ages[i]->0
            <= ages[j]->0
}

proof fn lemma_busiest(
    cats: Seq<Option<Category>>,
    ages: Seq<Option<int>>,
    category: Category,
    n: int,
)
    requires
        0 <= n <= cats.len(),
    ensures
        match busiest(cats, ages, category, n) {
            Some(k) => 0 <= k < n && cats[k] == Some(category) && ages[k] is Some && forall|j: int|
                0 <= j < n && #[trigger] cats[j] == Some(category) && ages[j] is Some
                    ==> ages[k]->0 <= ages[j]->0,
            None => forall|j: int|
                0 <= j < n && #[trigger] cats[j] == Some(category) ==> ages[j] is None,
        },
    decreases n,
{
    if n > 0 {
        lemma_busiest(cats, ages, category, n - 1);
    }
}

/// Apps of a category that three or more share are told of, with how many
/// there are, and of these the one touched last as the one most used; apps of
/// smaller categories are not.
pub proof fn law_crowded_categories_are_told(
    apps: Seq<(Seq<char>, usize)>,
    cats: Seq<Option<Category>>,
    ages: Seq<Option<int>>,
    n: int,
    places: Seq<int>,
)
    requires
        0 <= n <= apps.len(),
        apps.len() == cats.len(),
        apps.len() == ages.len(),
        apps.len() <= usize::MAX,
        places == Seq::new(apps.len(), |i: int| i),
    ensures
        order::stands_for(
            overlap_hints(apps, cats, ages, n),
            places,
            n,
            |i: int| cats[i] is Some && sharing(cats, cats[i]->0, cats.len() as int) >= 3,
            |hint: Recommendation, i: int| tells_crowd(hint, i, apps, cats, ages),
        ),
    decreases n,
{
    let wanted = |i: int| cats[i] is Some && sharing(cats, cats[i]->0, cats.len() as int) >= 3;
    let fits = |hint: Recommendation, i: int| tells_crowd(hint, i, apps, cats, ages);
    let list = overlap_hints(apps, cats, ages, n);
    if n > 0 {
        law_crowded_categories_are_told(apps, cats, ages, n - 1, places);
        let before = overlap_hints(apps, cats, ages, n - 1);
        assert(places[n - 1] == n - 1);
        if wanted(n - 1) {
            let category = cats[n - 1]->0;
            lemma_sharing(cats, category, cats.len() as int, 0);
            lemma_busiest(cats, ages, category, cats.len() as int);
            let hint = list.last();
            assert(list == before.push(hint));
            assert(fits(hint, n - 1));
            order::lemma_stands_for_more(before, places, n, wanted, fits, hint);
        } else {
            order::lemma_stands_for_same(before, places, n, wanted, fits);
        }
    } else {
        order::lemma_stands_for_none(list, places, wanted, fits);
    }
}

} // verus!

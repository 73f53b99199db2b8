//! flatpak applications.

use vstd::prelude::*;

use crate::ctx::Ctx;
use crate::host;
use crate::host::{command_exists, Host};
use crate::paths;
use crate::pkg::{packages, Backend, InstalledPackage, PackageModel};
use crate::runner::{CommandRunner, OutputModel, Reply};
use crate::snapper;
use crate::text;

verus! {

broadcast use vstd::seq::group_seq_axioms;

pub open spec fn available(ctx: &Ctx, host: &Host) -> bool {
    host::available("flatpak"@, ctx, host)
}

pub fn is_available(ctx: &Ctx, host: &Host) -> (r: bool)
    ensures
        r == available(ctx, host),
{
    command_exists("flatpak", ctx, host)
}

pub open spec fn list_argv() -> Seq<Seq<char>> {
    seq!["flatpak"@, "list"@, "--app"@, "--columns=application,name,version"@]
}

/// The three columns of a line; a missing one is absent.
pub open spec fn columns(line: Seq<char>) -> (Seq<char>, Option<Seq<char>>, Option<Seq<char>>) {
    match text::halves(line, "\t"@) {
        None => (line, None, None),
        Some((id, rest)) => match text::halves(rest, "\t"@) {
            None => (id, Some(rest), None),
            Some((name, version)) => (id, Some(name), Some(version)),
        },
    }
}

/// The app on one line: id, name and version with tabs between. Without a
/// name the id stands for it.
pub open spec fn app_on(line: Seq<char>) -> Option<PackageModel> {
    let (id, name, version) = columns(line);
    if text::trim(id).len() == 0 {
        None
    } else {
        Some(
            PackageModel {
                backend: Backend::Flatpak,
                id: text::trim(id),
                name: match name {
                    Some(name) => text::trim(name),
                    None => text::trim(text::trim(id)),
                },
                version: match version {
                    Some(version) => text::trim(version),
                    None => text::trim(""@),
                },
                size_bytes: None,
                aur: false,
            },
        )
    }
}

pub open spec fn apps_upto(lines: Seq<Seq<char>>, n: int) -> Seq<PackageModel>
    decreases n,
{
    if n <= 0 {
        Seq::empty()
    } else {
        match app_on(lines[n - 1]) {
            Some(app) => apps_upto(lines, n - 1).push(app),
            None => apps_upto(lines, n - 1),
        }
    }
}

pub open spec fn apps_in(stdout: Seq<char>) -> Seq<PackageModel> {
    apps_upto(text::lines(stdout), text::lines(stdout).len() as int)
}

pub open spec fn list_reply(reply: Reply) -> Seq<PackageModel> {
    match reply {
        Ok(out) => apps_in(out.stdout),
        Err(_) => Seq::empty(),
    }
}

pub fn parse_line(line: &str) -> (r: Option<InstalledPackage>)
    ensures
        match r {
            Some(app) => app_on(line@) == Some(app@),
            None => app_on(line@) is None,
        },
{
    let (id, name, version) = match text::cut_at(line, "\t") {
        None => (line.to_owned(), None, None),
        Some((id, rest)) => match text::cut_at(rest.as_str(), "\t") {
            None => (id, Some(rest), None),
            Some((name, version)) => (id, Some(name), Some(version)),
        },
    };
    let id = text::trimmed(id.as_str());
    if id.as_str().is_empty() {
        return None;
    }
    let name = match name {
        Some(name) => text::trimmed(name.as_str()),
        None => text::trimmed(id.as_str()),
    };
    let version = match version {
        Some(version) => text::trimmed(version.as_str()),
        None => text::trimmed(""),
    };
    Some(
        InstalledPackage {
            backend: Backend::Flatpak,
            id,
            name,
            version,
            size_bytes: None,
            aur: false,
        },
    )
}

/// The apps in a listing.
pub fn parse_list(stdout: &str) -> (r: Vec<InstalledPackage>)
    ensures
        packages(r@) == apps_in(stdout@),
{
    let list = text::split_lines(stdout);
    let ghost all = text::texts(list@);
    let mut out: Vec<InstalledPackage> = Vec::new();
    let mut i: usize = 0;
    assert(packages(out@) =~= Seq::empty());
    while i < list.len()
        invariant
            i <= list.len(),
            all == text::texts(list@),
            packages(out@) == apps_upto(all, i as int),
        decreases list.len() - i,
    {
        assert(all[i as int] == list@[i as int]@);
        let ghost had = out@;
        if let Some(app) = parse_line(list[i].as_str()) {
            out.push(app);
            assert(packages(out@) =~= packages(had).push(app@));
        }
        i += 1;
    }
    out
}

/// Tab-separated columns, one app per line. There is no size column: flatpak
/// does not offer a cheap installed size per app.
pub fn list<R: CommandRunner>(runner: &mut R) -> (r: Vec<InstalledPackage>)
    ensures
        final(runner).prepared() == old(runner).prepared(),
        snapper::asked(old(runner).exchanges(), final(runner).exchanges(), list_argv()),
        packages(r@) == list_reply(final(runner).exchanges().last().reply),
{
    let argv = text::list4("flatpak", "list", "--app", "--columns=application,name,version");
    let reply = runner.run(&argv);
    assert(runner.exchanges().drop_last() =~= old(runner).exchanges());
    match reply {
        Ok(out) => parse_list(out.stdout.as_str()),
        Err(_) => {
            let none: Vec<InstalledPackage> = Vec::new();
            assert(packages(none@) =~= Seq::empty());
            none
        },
    }
}

pub open spec fn removal(id: Seq<char>) -> Seq<Seq<char>> {
    seq!["flatpak"@, "uninstall"@, "--delete-data"@, "--noninteractive"@, id]
}

/// Never sudo: only the invoking user's own flatpak installation is touched.
pub fn remove_argv(id: &str) -> (r: Vec<String>)
    ensures
        text::texts(r@) == removal(id@),
{
    text::list5("flatpak", "uninstall", "--delete-data", "--noninteractive", id)
}

/// The sandboxed per-app data directory that may stay behind.
pub fn data_dir(ctx: &Ctx, id: &str) -> (r: String)
    ensures
        r@ == paths::joined(paths::joined(ctx.home@, ".var/app"@), id@),
{
    let apps = paths::join(ctx.home.as_str(), ".var/app");
    paths::join(apps.as_str(), id)
}

// ------------------------------------------------------------------------ laws


/// Whether a text can stand in a column of a listing.
pub open spec fn in_column(s: Seq<char>) -> bool {
    text::bare(s) && !s.contains('\t') && !s.contains('\n') && !s.contains('\r')
}

/// How flatpak writes a list of apps: id, name and version of each on a line,
/// with tabs between.
pub open spec fn written(apps: Seq<(Seq<char>, Seq<char>, Seq<char>)>) -> Seq<char> {
    text::unlined(
        Seq::new(apps.len(), |i: int| apps[i].0 + seq!['\t'] + apps[i].1 + seq!['\t'] + apps[i].2),
    )
}

proof fn lemma_written_app(app: (Seq<char>, Seq<char>, Seq<char>))
    requires
        app.0.len() > 0,
        in_column(app.0),
        in_column(app.1),
        in_column(app.2),
    ensures
        app_on(app.0 + seq!['\t'] + app.1 + seq!['\t'] + app.2) == Some(
            PackageModel {
                backend: Backend::Flatpak,
                id: app.0,
                name: app.1,
                version: app.2,
                size_bytes: None,
                aur: false,
            },
        ),
{
    reveal_strlit("\t");
    assert("\t"@ =~= seq!['\t']);
    let rest = app.1 + seq!['\t'] + app.2;
    assert(app.0 + seq!['\t'] + app.1 + seq!['\t'] + app.2 =~= app.0 + seq!['\t'] + rest);
    text::law_halves_at_the_first(app.0, '\t', rest);
    text::law_halves_at_the_first(app.1, '\t', app.2);
    text::lemma_trim_of_bare(app.0);
    text::lemma_trim_of_bare(app.1);
    text::lemma_trim_of_bare(app.2);
}

proof fn lemma_written_apps(
    apps: Seq<(Seq<char>, Seq<char>, Seq<char>)>,
    lines: Seq<Seq<char>>,
    n: int,
)
    requires
        0 <= n <= apps.len(),
        lines.len() == apps.len(),
        forall|i: int|
            0 <= i < apps.len() ==> {
                &&& (#[trigger] apps[i]).0.len() > 0
                &&& in_column(apps[i].0)
                &&& in_column(apps[i].1)
                &&& in_column(apps[i].2)
                &&& lines[i] == apps[i].0 + seq!['\t'] + apps[i].1 + seq!['\t'] + apps[i].2
            },
    ensures
        apps_upto(lines, n) == Seq::new(
            n as nat,
            |i: int|
                PackageModel {
                    backend: Backend::Flatpak,
                    id: apps[i].0,
                    name: apps[i].1,
                    version: apps[i].2,
                    size_bytes: None,
                    aur: false,
                },
        ),
    decreases n,
{
    if n > 0 {
        lemma_written_apps(apps, lines, n - 1);
        assert(apps[n - 1].0.len() > 0);
        lemma_written_app(apps[n - 1]);
    }
    assert(apps_upto(lines, n) =~= Seq::new(
        n as nat,
        |i: int|
            PackageModel {
                backend: Backend::Flatpak,
                id: apps[i].0,
                name: apps[i].1,
                version: apps[i].2,
                size_bytes: None,
                aur: false,
            },
    ));
}

/// Every app that flatpak lists is listed here, under its own id, name and
/// version, in flatpak's order, and no other is.
pub proof fn law_listed_apps_are_read_back(
    apps: Seq<(Seq<char>, Seq<char>, Seq<char>)>,
    success: bool,
    stderr: Seq<char>,
)
    requires
        forall|i: int|
            0 <= i < apps.len() ==> {
                &&& (#[trigger] apps[i]).0.len() > 0
                &&& in_column(apps[i].0)
                &&& in_column(apps[i].1)
                &&& in_column(apps[i].2)
            },
    ensures
        list_reply(Ok(OutputModel { success, stdout: written(apps), stderr })) == Seq::new(
            apps.len(),
            |i: int|
                PackageModel {
                    backend: Backend::Flatpak,
                    id: apps[i].0,
                    name: apps[i].1,
                    version: apps[i].2,
                    size_bytes: None,
                    aur: false,
                },
        ),
{
    let rows = Seq::new(
        apps.len(),
        |i: int| apps[i].0 + seq!['\t'] + apps[i].1 + seq!['\t'] + apps[i].2,
    );
    assert forall|i: int| 0 <= i < rows.len() implies !(#[trigger] rows[i]).contains('\n')
        && !rows[i].contains('\r') by {
        assert(apps[i].0.len() > 0);
    }
    text::law_lines_read_back(rows);
    lemma_written_apps(apps, rows, apps.len() as int);
}

/// An app is removed with its data, by its id, and without a question.
pub proof fn law_removal_names_the_app(id: Seq<char>)
    ensures
        removal(id) == seq![
            "flatpak"@,
            "uninstall"@,
            "--delete-data"@,
            "--noninteractive"@,
            id,
        ],
{
}

/// Flatpak is asked for apps only, and for the three columns that are read.
pub proof fn law_only_apps_are_asked_for()
    ensures
        list_argv().len() == 4,
        list_argv()[0] == "flatpak"@,
        list_argv()[1] == "list"@,
        list_argv()[2] == "--app"@,
        list_argv()[3] == "--columns=application,name,version"@,
{
}

} // verus!

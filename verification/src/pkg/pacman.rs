//! pacman, and the AUR packages it knows as foreign.

use vstd::prelude::*;

use crate::ctx::Ctx;
use crate::host;
use crate::host::{command_exists, Host};
use crate::paths;
use crate::pkg::{packages, Backend, InstalledPackage, PackageModel};
use crate::rules::command;
use crate::rules::command::{find_size, parse_pacman_installed_sizes, size_views};
use crate::runner::{reply, CmdOutput, CommandRunner, Exchange, Reply};
use crate::snapper;
use crate::text;
use crate::text::{list2, list3};

verus! {

broadcast use vstd::seq::group_seq_axioms;

pub open spec fn available(ctx: &Ctx, host: &Host) -> bool {
    host::available("pacman"@, ctx, host)
}

pub fn is_available(ctx: &Ctx, host: &Host) -> (r: bool)
    ensures
        r == available(ctx, host),
{
    command_exists("pacman", ctx, host)
}

/// The `<name> <version>` pairs among the first `n` lines.
pub open spec fn name_versions(lines: Seq<Seq<char>>, n: int) -> Seq<(Seq<char>, Seq<char>)>
    decreases n,
{
    if n <= 0 {
        Seq::empty()
    } else {
        match text::halves(lines[n - 1], " "@) {
            Some((name, version)) => name_versions(lines, n - 1).push(
                (name, text::trim(version)),
            ),
            None => name_versions(lines, n - 1),
        }
    }
}

pub open spec fn name_versions_in(stdout: Seq<char>) -> Seq<(Seq<char>, Seq<char>)> {
    name_versions(text::lines(stdout), text::lines(stdout).len() as int)
}

pub open spec fn pairs(v: Seq<(String, String)>) -> Seq<(Seq<char>, Seq<char>)> {
    Seq::new(v.len(), |i: int| (v[i].0@, v[i].1@))
}

/// Reads the lines of `pacman -Q` and `pacman -Qm`.
pub fn parse_name_version_lines(stdout: &str) -> (r: Vec<(String, String)>)
    ensures
        pairs(r@) == name_versions_in(stdout@),
{
    let list = text::split_lines(stdout);
    let ghost all = text::texts(list@);
    let mut out: Vec<(String, String)> = Vec::new();
    let mut i: usize = 0;
    assert(pairs(out@) =~= Seq::empty());
    while i < list.len()
        invariant
            i <= list.len(),
            all == text::texts(list@),
            pairs(out@) == name_versions(all, i as int),
        decreases list.len() - i,
    {
        assert(all[i as int] == list@[i as int]@);
        let ghost had = out@;
        if let Some((name, version)) = text::cut_at(list[i].as_str(), " ") {
            let version = text::trimmed(version.as_str());
            out.push((name, version));
            assert(pairs(out@) =~= pairs(had).push((name@, version@)));
        }
        i += 1;
    }
    out
}

pub open spec fn query_argv() -> Seq<Seq<char>> {
    seq!["pacman"@, "-Q"@]
}

pub open spec fn foreign_argv() -> Seq<Seq<char>> {
    seq!["pacman"@, "-Qm"@]
}

pub open spec fn firsts(v: Seq<(Seq<char>, Seq<char>)>) -> Seq<Seq<char>> {
    Seq::new(v.len(), |i: int| v[i].0)
}

pub open spec fn name_versions_reply(reply: Reply) -> Seq<(Seq<char>, Seq<char>)> {
    match reply {
        Ok(out) => name_versions_in(out.stdout),
        Err(_) => Seq::empty(),
    }
}

/// One installed package: foreign if it is among `foreign`, sized if its
/// size is known.
pub open spec fn package(
    pair: (Seq<char>, Seq<char>),
    foreign: Seq<Seq<char>>,
    sizes: Seq<(Seq<char>, nat)>,
) -> PackageModel {
    PackageModel {
        backend: Backend::Pacman,
        id: pair.0,
        name: pair.0,
        version: pair.1,
        size_bytes: match command::size_of(sizes, pair.0) {
            Some(n) => Some(n as u64),
            None => None,
        },
        aur: foreign.contains(pair.0),
    }
}

pub open spec fn package_list(
    installed: Seq<(Seq<char>, Seq<char>)>,
    foreign: Seq<Seq<char>>,
    sizes: Seq<(Seq<char>, nat)>,
) -> Seq<PackageModel> {
    Seq::new(installed.len(), |i: int| package(installed[i], foreign, sizes))
}

/// How many commands the listing takes: one if nothing is installed or the
/// first cannot be run, else three.
pub open spec fn list_steps(log: Seq<Exchange>, start: int) -> int {
    if name_versions_reply(log[start].reply).len() == 0 {
        1
    } else {
        3
    }
}

pub open spec fn list_asked(log: Seq<Exchange>, start: int) -> bool {
    let installed = name_versions_reply(log[start].reply);
    &&& log[start].argv == query_argv()
    &&& installed.len() > 0 ==> {
        &&& log[start + 1].argv == foreign_argv()
        &&& log[start + 2].argv == command::query_argv(firsts(installed))
    }
}

pub open spec fn list_found(log: Seq<Exchange>, start: int) -> Seq<PackageModel> {
    let installed = name_versions_reply(log[start].reply);
    if installed.len() == 0 {
        Seq::empty()
    } else {
        package_list(
            installed,
            firsts(name_versions_reply(log[start + 1].reply)),
            command::printed_sizes(log[start + 2].reply),
        )
    }
}

fn first_column(v: &Vec<(String, String)>) -> (r: Vec<String>)
    ensures
        text::texts(r@) == firsts(pairs(v@)),
{
    let mut out: Vec<String> = Vec::new();
    let mut i: usize = 0;
    while i < v.len()
        invariant
            i <= v.len(),
            out.len() == i,
            forall|k: int| 0 <= k < i ==> (#[trigger] out@[k])@ == v@[k].0@,
        decreases v.len() - i,
    {
        out.push(v[i].0.clone());
        i += 1;
    }
    assert(text::texts(out@) =~= firsts(pairs(v@)));
    out
}

/// The packages with their badges and sizes.
pub fn assemble(
    installed: &Vec<(String, String)>,
    foreign: &Vec<String>,
    sizes: &Vec<(String, u64)>,
) -> (r: Vec<InstalledPackage>)
    ensures
        packages(r@) == package_list(
            pairs(installed@),
            text::texts(foreign@),
            size_views(sizes@),
        ),
{
    let mut out: Vec<InstalledPackage> = Vec::new();
    let mut i: usize = 0;
    while i < installed.len()
        invariant
            i <= installed.len(),
            out.len() == i,
            forall|k: int|
                0 <= k < i ==> (#[trigger] out@[k])@ == package(
                    pairs(installed@)[k],
                    text::texts(foreign@),
                    size_views(sizes@),
                ),
        decreases installed.len() - i,
    {
        let name = installed[i].0.as_str();
        assert(pairs(installed@)[i as int] == (installed@[i as int].0@, installed@[i as int].1@));
        let size_bytes = find_size(sizes, name);
        out.push(
            InstalledPackage {
                backend: Backend::Pacman,
                id: name.to_owned(),
                name: name.to_owned(),
                version: installed[i].1.clone(),
                size_bytes,
                aur: text::holds(foreign, name),
            },
        );
        i += 1;
    }
    assert(packages(out@) =~= package_list(
        pairs(installed@),
        text::texts(foreign@),
        size_views(sizes@),
    ));
    out
}

/// Every installed package (`pacman -Q`), badged `aur` when it is foreign
/// (`pacman -Qm`), sized by a single best-effort `pacman -Qi`.
pub fn list<R: CommandRunner>(runner: &mut R) -> (r: Vec<InstalledPackage>)
    ensures
        final(runner).prepared() == old(runner).prepared(),
        ({
            let start = old(runner).exchanges().len() as int;
            let log = final(runner).exchanges();
            &&& log.len() == start + list_steps(log, start)
            &&& log.take(start) == old(runner).exchanges()
            &&& list_asked(log, start)
            &&& packages(r@) == list_found(log, start)
        }),
{
    let ghost before = runner.exchanges();
    let ghost start = before.len() as int;
    let none: Vec<InstalledPackage> = Vec::new();
    assert(packages(none@) =~= Seq::empty());
    let argv = list2("pacman", "-Q");
    let installed = match runner.run(&argv) {
        Ok(out) => parse_name_version_lines(out.stdout.as_str()),
        Err(_) => {
            assert(runner.exchanges().take(start) =~= before);
            return none;
        },
    };
    let ghost log1 = runner.exchanges();
    let ghost pairs1 = pairs(installed@);
    assert(log1.take(start) =~= before);
    assert(pairs1 == name_versions_reply(log1[start].reply));
    assert(pairs1.len() == installed.len());
    if installed.len() == 0 {
        return none;
    }
    let argv = list2("pacman", "-Qm");
    let foreign = match runner.run(&argv) {
        Ok(out) => {
            let list = parse_name_version_lines(out.stdout.as_str());
            first_column(&list)
        },
        Err(_) => {
            let list: Vec<String> = Vec::new();
            assert(text::texts(list@) =~= firsts(Seq::empty()));
            list
        },
    };
    let ghost log2 = runner.exchanges();
    let mut argv = list2("pacman", "-Qi");
    let mut names = first_column(&installed);
    let ghost head = argv@;
    let ghost tail = names@;
    argv.append(&mut names);
    assert(text::texts(argv@) =~= text::texts(head) + text::texts(tail));
    let sizes = match runner.run(&argv) {
        Ok(out) => parse_pacman_installed_sizes(out.stdout.as_str()),
        Err(_) => {
            let list: Vec<(String, u64)> = Vec::new();
            assert(size_views(list@) =~= Seq::empty());
            list
        },
    };
    proof {
        let log = runner.exchanges();
        assert(log[start] == log1[start]);
        assert(log[start + 1] == log2[start + 1]);
        assert(log.take(start) =~= before);
    }
    assemble(&installed, &foreign, &sizes)
}

pub open spec fn removal(id: Seq<char>) -> Seq<Seq<char>> {
    seq!["pacman"@, "-Rns"@, "--noconfirm"@, "--"@, id]
}

/// `pacman -Rns --noconfirm -- <id>`, always run via sudo. The `--` keeps a
/// name that starts with a dash from being taken for a flag.
pub fn remove_argv(id: &str) -> (r: Vec<String>)
    ensures
        text::texts(r@) == removal(id@),
{
    text::list5("pacman", "-Rns", "--noconfirm", "--", id)
}

pub open spec fn file_list_argv(id: Seq<char>) -> Seq<Seq<char>> {
    seq!["pacman"@, "-Qql"@, id]
}

pub fn file_list_args(id: &str) -> (r: Vec<String>)
    ensures
        text::texts(r@) == file_list_argv(id@),
{
    list3("pacman", "-Qql", id)
}

/// The files that the package manager printed.
pub fn files_in(answer: &Result<CmdOutput, String>) -> (r: Vec<String>)
    ensures
        text::texts(r@) == command::printed_lines(reply(*answer)),
{
    match answer {
        Ok(out) => text::split_lines(out.stdout.as_str()),
        Err(_) => {
            let none: Vec<String> = Vec::new();
            assert(text::texts(none@) =~= Seq::empty());
            none
        },
    }
}

/// Every file the package owns, captured with `pacman -Qql` before removal.
pub fn file_list<R: CommandRunner>(runner: &mut R, id: &str) -> (r: Vec<String>)
    ensures
        final(runner).prepared() == old(runner).prepared(),
        snapper::asked(old(runner).exchanges(), final(runner).exchanges(), file_list_argv(id@)),
        text::texts(r@) == command::printed_lines(final(runner).exchanges().last().reply),
{
    let argv = file_list_args(id);
    let answer = runner.run(&argv);
    assert(runner.exchanges().drop_last() =~= old(runner).exchanges());
    files_in(&answer)
}

/// The `(path, package)` on one line `<path> is owned by <pkg> <version>`.
pub open spec fn owner_on(line: Seq<char>) -> Option<(Seq<char>, Seq<char>)> {
    match text::halves(line, " is owned by "@) {
        Some((path, rest)) => if text::words(rest).len() > 0 {
            Some((text::trim(path), text::words(rest)[0]))
        } else {
            None
        },
        None => None,
    }
}

/// The first of the first `n` pairs that is about this path.
pub open spec fn owner_at(list: Seq<(Seq<char>, Seq<char>)>, n: int, path: Seq<char>) -> Option<int>
    decreases n,
{
    if n <= 0 {
        None
    } else {
        match owner_at(list, n - 1, path) {
            Some(k) => Some(k),
            None => if paths::same_path(list[n - 1].0, path) {
                Some(n - 1)
            } else {
                None
            },
        }
    }
}

/// The pairs and one more. A path has one owner, the last that it was said
/// to have.
pub open spec fn with_owner(
    list: Seq<(Seq<char>, Seq<char>)>,
    pair: (Seq<char>, Seq<char>),
) -> Seq<(Seq<char>, Seq<char>)> {
    match owner_at(list, list.len() as int, pair.0) {
        Some(k) => list.update(k, (list[k].0, pair.1)),
        None => list.push(pair),
    }
}

fn set_owner(list: &mut Vec<(String, String)>, path: String, owner: String)
    ensures
        pairs(final(list)@) == with_owner(pairs(old(list)@), (path@, owner@)),
{
    let ghost before = pairs(list@);
    let mut i: usize = 0;
    while i < list.len()
        invariant
            i <= list.len(),
            *list == *old(list),
            before == pairs(list@),
            owner_at(before, i as int, path@) is None,
        decreases list.len() - i,
    {
        assert(before[i as int] == (list@[i as int].0@, list@[i as int].1@));
        if paths::is_same_path(list[i].0.as_str(), path.as_str()) {
            proof {
                lemma_owner_at_stays(before, i + 1, list@.len() as int, path@);
            }
            let known = list[i].0.clone();
            list.set(i, (known, owner));
            assert(pairs(list@) =~= before.update(i as int, (before[i as int].0, owner@)));
            return;
        }
        i += 1;
    }
    let ghost pair = (path@, owner@);
    list.push((path, owner));
    assert(pairs(list@) =~= before.push(pair));
}

proof fn lemma_owner_at_stays(
    list: Seq<(Seq<char>, Seq<char>)>,
    n: int,
    m: int,
    path: Seq<char>,
)
    requires
        0 <= n <= m,
        owner_at(list, n, path) is Some,
    ensures
        owner_at(list, m, path) == owner_at(list, n, path),
    decreases m,
{
    if n < m {
        lemma_owner_at_stays(list, n, m - 1, path);
    }
}

proof fn lemma_owner_at(list: Seq<(Seq<char>, Seq<char>)>, n: int, path: Seq<char>)
    ensures
        match owner_at(list, n, path) {
            Some(k) => 0 <= k < n && paths::same_path(list[k].0, path),
            None => forall|k: int| 0 <= k < n ==> !paths::same_path((#[trigger] list[k]).0, path),
        },
    decreases n,
{
    if n > 0 {
        lemma_owner_at(list, n - 1, path);
    }
}

pub open spec fn owners_upto(lines: Seq<Seq<char>>, n: int) -> Seq<(Seq<char>, Seq<char>)>
    decreases n,
{
    if n <= 0 {
        Seq::empty()
    } else {
        match owner_on(lines[n - 1]) {
            Some(pair) => with_owner(owners_upto(lines, n - 1), pair),
            None => owners_upto(lines, n - 1),
        }
    }
}

pub open spec fn owners_in(stdout: Seq<char>) -> Seq<(Seq<char>, Seq<char>)> {
    owners_upto(text::lines(stdout), text::lines(stdout).len() as int)
}

/// Reads the lines of `pacman -Qo`: which package owns which path.
pub fn parse_owners(stdout: &str) -> (r: Vec<(String, String)>)
    ensures
        pairs(r@) == owners_in(stdout@),
{
    let list = text::split_lines(stdout);
    let ghost all = text::texts(list@);
    let mut out: Vec<(String, String)> = Vec::new();
    let mut i: usize = 0;
    assert(pairs(out@) =~= Seq::empty());
    while i < list.len()
        invariant
            i <= list.len(),
            all == text::texts(list@),
            pairs(out@) == owners_upto(all, i as int),
        decreases list.len() - i,
    {
        assert(all[i as int] == list@[i as int]@);
        if let Some((path, rest)) = text::cut_at(list[i].as_str(), " is owned by ") {
            let words = text::split_words(rest.as_str());
            assert(text::texts(words@).len() == words.len());
            if words.len() > 0 {
                assert(text::texts(words@)[0] == words@[0]@);
                set_owner(&mut out, text::trimmed(path.as_str()), words[0].clone());
            }
        }
        i += 1;
    }
    out
}

pub open spec fn owners_argv(files: Seq<Seq<char>>) -> Seq<Seq<char>> {
    seq!["pacman"@, "-Qo"@, "--"@] + files
}

pub open spec fn owners_reply(reply: Reply) -> Seq<(Seq<char>, Seq<char>)> {
    match reply {
        Ok(out) => owners_in(out.stdout),
        Err(_) => Seq::empty(),
    }
}

/// Asks in one command which packages own `files`. A file that no package
/// owns makes pacman fail; what it printed for the others is kept. Nothing
/// is asked for no files.
pub fn owners<R: CommandRunner>(runner: &mut R, files: &Vec<String>) -> (r: Vec<(String, String)>)
    ensures
        final(runner).prepared() == old(runner).prepared(),
        files.len() == 0 ==> r@.len() == 0 && final(runner).exchanges() == old(
            runner,
        ).exchanges(),
        files.len() > 0 ==> {
            &&& snapper::asked(
                old(runner).exchanges(),
                final(runner).exchanges(),
                owners_argv(text::texts(files@)),
            )
            &&& pairs(r@) == owners_reply(final(runner).exchanges().last().reply)
        },
{
    if files.len() == 0 {
        return Vec::new();
    }
    let mut argv = list3("pacman", "-Qo", "--");
    let ghost head = argv@;
    let mut more = text::copies(files);
    let ghost tail = more@;
    argv.append(&mut more);
    assert(text::texts(argv@) =~= text::texts(head) + text::texts(tail));
    let reply = runner.run(&argv);
    assert(runner.exchanges().drop_last() =~= old(runner).exchanges());
    match reply {
        Ok(out) => parse_owners(out.stdout.as_str()),
        Err(_) => {
            let none: Vec<(String, String)> = Vec::new();
            assert(pairs(none@) =~= Seq::empty());
            none
        },
    }
}

// ------------------------------------------------------------------------- laws

/// No path has two owners.
pub proof fn law_one_owner_for_each_path(lines: Seq<Seq<char>>, n: int, i: int, j: int)
    requires
        0 <= i < j < owners_upto(lines, n).len(),
    ensures
        !paths::same_path(owners_upto(lines, n)[i].0, owners_upto(lines, n)[j].0),
    decreases n,
{
    if n > 0 {
        let before = owners_upto(lines, n - 1);
        let now = owners_upto(lines, n);
        match owner_on(lines[n - 1]) {
            Some(pair) => {
                lemma_owner_at(before, before.len() as int, pair.0);
                if owner_at(before, before.len() as int, pair.0) is Some {
                    law_one_owner_for_each_path(lines, n - 1, i, j);
                } else if j < before.len() {
                    law_one_owner_for_each_path(lines, n - 1, i, j);
                } else {
                    assert(now[i] == before[i]);
                }
            },
            None => law_one_owner_for_each_path(lines, n - 1, i, j),
        }
    }
}

/// The owner of a path is the one that the last line about it names.
pub proof fn law_the_last_owner_counts(lines: Seq<Seq<char>>, n: int)
    requires
        n > 0,
        owner_on(lines[n - 1]) is Some,
    ensures
        ({
            let pair = owner_on(lines[n - 1])->0;
            let now = owners_upto(lines, n);
            exists|k: int|
                0 <= k < now.len() && paths::same_path((#[trigger] now[k]).0, pair.0) && now[k].1
                    == pair.1
        }),
{
    let pair = owner_on(lines[n - 1])->0;
    let before = owners_upto(lines, n - 1);
    let now = owners_upto(lines, n);
    lemma_owner_at(before, before.len() as int, pair.0);
    match owner_at(before, before.len() as int, pair.0) {
        Some(k) => {
            assert(now[k] == (before[k].0, pair.1));
        },
        None => {
            assert(now[before.len() as int] == pair);
        },
    }
}

/// How pacman writes a list of packages: name and version of each on a line.
pub open spec fn written(list: Seq<(Seq<char>, Seq<char>)>) -> Seq<char> {
    text::unlined(Seq::new(list.len(), |i: int| list[i].0 + seq![' '] + list[i].1))
}

/// Whether these can be a package's name and version.
pub open spec fn nameable(pair: (Seq<char>, Seq<char>)) -> bool {
    text::one_word(pair.0) && text::one_word(pair.1)
}

proof fn lemma_word_holds_none(s: Seq<char>, c: char)
    requires
        text::one_word(s),
        text::white(c),
    ensures
        !s.contains(c),
{
    if s.contains(c) {
        let k = choose|k: int| 0 <= k < s.len() && s[k] == c;
        assert(!text::white(s[k]));
    }
}

proof fn lemma_written_pairs(list: Seq<(Seq<char>, Seq<char>)>, lines: Seq<Seq<char>>, n: int)
    requires
        0 <= n <= list.len(),
        lines.len() == list.len(),
        forall|i: int|
            0 <= i < list.len() ==> nameable(#[trigger] list[i]) && lines[i] == list[i].0 + seq![
                ' ',
            ] + list[i].1,
    ensures
        name_versions(lines, n) == list.take(n),
    decreases n,
{
    if n > 0 {
        lemma_written_pairs(list, lines, n - 1);
        let pair = list[n - 1];
        assert(nameable(pair));
        reveal_strlit(" ");
        assert(" "@ =~= seq![' ']);
        lemma_word_holds_none(pair.0, ' ');
        text::law_halves_at_the_first(pair.0, ' ', pair.1);
        assert(!text::white(pair.1[0]) && !text::white(pair.1[pair.1.len() - 1]));
        text::lemma_trim_of_bare(pair.1);
    }
    assert(name_versions(lines, n) =~= list.take(n));
}

proof fn lemma_read_back(list: Seq<(Seq<char>, Seq<char>)>)
    requires
        forall|i: int| 0 <= i < list.len() ==> nameable(#[trigger] list[i]),
    ensures
        name_versions_in(written(list)) == list,
{
    let rows = Seq::new(list.len(), |i: int| list[i].0 + seq![' '] + list[i].1);
    assert forall|i: int| 0 <= i < rows.len() implies !(#[trigger] rows[i]).contains('\n')
        && !rows[i].contains('\r') by {
        assert(nameable(list[i]));
        lemma_word_holds_none(list[i].0, '\n');
        lemma_word_holds_none(list[i].0, '\r');
        lemma_word_holds_none(list[i].1, '\n');
        lemma_word_holds_none(list[i].1, '\r');
    }
    text::law_lines_read_back(rows);
    lemma_written_pairs(list, rows, list.len() as int);
    assert(list.take(list.len() as int) =~= list);
}

/// Every package that pacman lists is listed here, by name and version, in
/// pacman's order, and no other is. It is of the AUR exactly if pacman lists
/// it among the foreign ones.
pub proof fn law_listed_packages_are_read_back(
    log: Seq<Exchange>,
    start: int,
    installed: Seq<(Seq<char>, Seq<char>)>,
    foreign: Seq<(Seq<char>, Seq<char>)>,
)
    requires
        forall|i: int| 0 <= i < installed.len() ==> nameable(#[trigger] installed[i]),
        forall|i: int| 0 <= i < foreign.len() ==> nameable(#[trigger] foreign[i]),
        log[start].reply matches Ok(out) && out.stdout == written(installed),
        log[start + 1].reply matches Ok(out) && out.stdout == written(foreign),
    ensures
        ({
            let r = list_found(log, start);
            &&& r.len() == installed.len()
            &&& forall|i: int|
                0 <= i < r.len() ==> {
                    &&& (#[trigger] r[i]).backend == Backend::Pacman
                    &&& r[i].id == installed[i].0
                    &&& r[i].name == installed[i].0
                    &&& r[i].version == installed[i].1
                    &&& r[i].aur <==> exists|k: int|
                        0 <= k < foreign.len() && (#[trigger] foreign[k]).0 == installed[i].0
                }
        }),
{
    lemma_read_back(installed);
    lemma_read_back(foreign);
    let r = list_found(log, start);
    let names = firsts(foreign);
    assert forall|i: int| 0 <= i < r.len() implies {
        &&& (#[trigger] r[i]).backend == Backend::Pacman
        &&& r[i].id == installed[i].0
        &&& r[i].name == installed[i].0
        &&& r[i].version == installed[i].1
        &&& r[i].aur <==> exists|k: int|
            0 <= k < foreign.len() && (#[trigger] foreign[k]).0 == installed[i].0
    } by {
        if r[i].aur {
            let k = choose|k: int| 0 <= k < names.len() && names[k] == installed[i].0;
            assert(foreign[k].0 == installed[i].0);
        }
        if exists|k: int| 0 <= k < foreign.len() && (#[trigger] foreign[k]).0 == installed[i].0 {
            let k = choose|k: int|
                0 <= k < foreign.len() && (#[trigger] foreign[k]).0 == installed[i].0;
            assert(names[k] == installed[i].0);
        }
    }
}

/// A package is removed with what only it needed, by its name, which is never
/// taken for a flag.
pub proof fn law_removal_names_the_package(id: Seq<char>)
    ensures
        removal(id) == seq!["pacman"@, "-Rns"@, "--noconfirm"@, "--"@, id],
{
}

/// The sizes of packages are those that the third command prints.
pub proof fn law_sizes_are_asked_for_last(log: Seq<Exchange>, start: int, i: int)
    requires
        0 <= i < list_found(log, start).len(),
    ensures
        ({
            let p = list_found(log, start)[i];
            let size = command::size_of(command::printed_sizes(log[start + 2].reply), p.id);
            &&& size is None ==> p.size_bytes is None
            &&& size is Some ==> p.size_bytes == Some(size->0 as u64)
        }),
{
}

/// What pacman is asked: everything installed, what is foreign among it, the
/// details of those, the files of one package, and the owners of files. The
/// names of files never pass for options.
pub proof fn law_pacman_is_asked_by_name(
    log: Seq<Exchange>,
    start: int,
    id: Seq<char>,
    files: Seq<Seq<char>>,
)
    requires
        list_asked(log, start),
        name_versions_reply(log[start].reply).len() > 0,
    ensures
        log[start].argv == seq!["pacman"@].push("-Q"@),
        log[start + 1].argv == seq!["pacman"@].push("-Qm"@),
        ({
            let asked = log[start + 2].argv;
            let installed = name_versions_reply(log[start].reply);
            &&& asked.len() == installed.len() + 2
            &&& asked[0] == "pacman"@
            &&& asked[1] == "-Qi"@
            &&& forall|i: int|
                0 <= i < installed.len() ==> asked[i + 2] == #[trigger] installed[i].0
        }),
        file_list_argv(id) == seq!["pacman"@].push("-Qql"@).push(id),
        owners_argv(files) == seq!["pacman"@].push("-Qo"@).push("--"@) + files,
{
    assert(query_argv() =~= seq!["pacman"@].push("-Q"@));
    assert(foreign_argv() =~= seq!["pacman"@].push("-Qm"@));
    assert(file_list_argv(id) =~= seq!["pacman"@].push("-Qql"@).push(id));
    assert(seq!["pacman"@, "-Qo"@, "--"@] =~= seq!["pacman"@].push("-Qo"@).push("--"@));
}

} // verus!

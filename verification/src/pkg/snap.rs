//! Snaps.

use vstd::prelude::*;

use crate::ctx::Ctx;
use crate::host;
use crate::host::{command_exists, Host};
use crate::pkg::{packages, Backend, InstalledPackage, PackageModel};
use crate::runner::{CommandRunner, OutputModel, Reply};
use crate::snapper;
use crate::text;

verus! {

broadcast use vstd::seq::group_seq_axioms;

pub open spec fn available(ctx: &Ctx, host: &Host) -> bool {
    host::available("snap"@, ctx, host)
}

pub fn is_available(ctx: &Ctx, host: &Host) -> (r: bool)
    ensures
        r == available(ctx, host),
{
    command_exists("snap", ctx, host)
}

pub open spec fn list_argv() -> Seq<Seq<char>> {
    seq!["snap"@, "list"@]
}

/// The snap on one row: its first two words are name and version.
pub open spec fn snap_on(line: Seq<char>) -> Option<PackageModel> {
    let cols = text::words(line);
    if cols.len() == 0 {
        None
    } else {
        Some(
            PackageModel {
                backend: Backend::Snap,
                id: cols[0],
                name: cols[0],
                version: if cols.len() > 1 {
                    cols[1]
                } else {
                    ""@
                },
                size_bytes: None,
                aur: false,
            },
        )
    }
}

/// The snaps among the first `n` lines; the first line is the head of the
/// table.
pub open spec fn snaps_upto(lines: Seq<Seq<char>>, n: int) -> Seq<PackageModel>
    decreases n,
{
    if n <= 1 {
        Seq::empty()
    } else {
        match snap_on(lines[n - 1]) {
            Some(s) => snaps_upto(lines, n - 1).push(s),
            None => snaps_upto(lines, n - 1),
        }
    }
}

pub open spec fn snaps_in(stdout: Seq<char>) -> Seq<PackageModel> {
    snaps_upto(text::lines(stdout), text::lines(stdout).len() as int)
}

pub open spec fn list_reply(reply: Reply) -> Seq<PackageModel> {
    match reply {
        Ok(out) => snaps_in(out.stdout),
        Err(_) => Seq::empty(),
    }
}

pub fn parse_snap_list(stdout: &str) -> (r: Vec<InstalledPackage>)
    ensures
        packages(r@) == snaps_in(stdout@),
{
    let list = text::split_lines(stdout);
    let ghost all = text::texts(list@);
    let mut out: Vec<InstalledPackage> = Vec::new();
    assert(packages(out@) =~= Seq::empty());
    assert(all.len() == list.len());
    let mut i: usize = 1;
    while i < list.len()
        invariant
            1 <= i,
            i <= list.len() || i == 1,
            all == text::texts(list@),
            packages(out@) == snaps_upto(all, i as int),
        decreases list.len() - i,
    {
        assert(all[i as int] == list@[i as int]@);
        let ghost had = out@;
        let cols = text::split_words(list[i].as_str());
        let ghost w = text::texts(cols@);
        assert(w.len() == cols.len());
        if cols.len() > 0 {
            assert(w[0] == cols@[0]@);
            let version = if cols.len() > 1 {
                assert(w[1] == cols@[1]@);
                cols[1].clone()
            } else {
                "".to_owned()
            };
            let p = InstalledPackage {
                backend: Backend::Snap,
                id: cols[0].clone(),
                name: cols[0].clone(),
                version,
                size_bytes: None,
                aur: false,
            };
            out.push(p);
            assert(packages(out@) =~= packages(had).push(p@));
        }
        i += 1;
    }
    out
}

/// A header line, then one row per snap. This command offers no sizes.
pub fn list<R: CommandRunner>(runner: &mut R) -> (r: Vec<InstalledPackage>)
    ensures
        final(runner).prepared() == old(runner).prepared(),
        snapper::asked(old(runner).exchanges(), final(runner).exchanges(), list_argv()),
        packages(r@) == list_reply(final(runner).exchanges().last().reply),
{
    let argv = text::list2("snap", "list");
    let reply = runner.run(&argv);
    assert(runner.exchanges().drop_last() =~= old(runner).exchanges());
    match reply {
        Ok(out) => parse_snap_list(out.stdout.as_str()),
        Err(_) => {
            let none: Vec<InstalledPackage> = Vec::new();
            assert(packages(none@) =~= Seq::empty());
            none
        },
    }
}

pub open spec fn removal(name: Seq<char>) -> Seq<Seq<char>> {
    seq!["snap"@, "remove"@, "--"@, name]
}

/// `snap remove -- <name>`, always run via sudo. The `--` keeps a name that
/// starts with a dash from being taken for a flag.
pub fn remove_argv(name: &str) -> (r: Vec<String>)
    ensures
        text::texts(r@) == removal(name@),
{
    text::list4("snap", "remove", "--", name)
}

// ------------------------------------------------------------------------ laws


/// How snap writes a list of snaps: a head, and below it a row for each with
/// its name, its version and more.
pub open spec fn written(
    head: Seq<char>,
    snaps: Seq<(Seq<char>, Seq<char>, Seq<Seq<char>>)>,
) -> Seq<char> {
    text::unlined(seq![head] + rows_of(snaps))
}

pub open spec fn rows_of(snaps: Seq<(Seq<char>, Seq<char>, Seq<Seq<char>>)>) -> Seq<Seq<char>> {
    Seq::new(
        snaps.len(),
        |i: int| text::join(seq![snaps[i].0, snaps[i].1] + snaps[i].2, " "@),
    )
}

/// Whether a row can be told apart into its words.
pub open spec fn in_words(s: (Seq<char>, Seq<char>, Seq<Seq<char>>)) -> bool {
    &&& text::one_word(s.0)
    &&& text::one_word(s.1)
    &&& forall|k: int| 0 <= k < s.2.len() ==> text::one_word(#[trigger] s.2[k])
}

proof fn lemma_joined_holds_no_feed(list: Seq<Seq<char>>, c: char)
    requires
        c == '\n' || c == '\r',
        forall|i: int| 0 <= i < list.len() ==> text::one_word(#[trigger] list[i]),
    ensures
        !text::join(list, " "@).contains(c),
    decreases list.len(),
{
    reveal_strlit(" ");
    if list.len() > 0 {
        let last = list[list.len() - 1];
        assert(text::one_word(last));
        assert(!last.contains(c)) by {
            if last.contains(c) {
                let k = choose|k: int| 0 <= k < last.len() && last[k] == c;
                assert(!text::white(last[k]));
            }
        }
        let rest = list.drop_last();
        assert forall|i: int| 0 <= i < rest.len() implies text::one_word(#[trigger] rest[i]) by {
            assert(rest[i] == list[i]);
        }
        lemma_joined_holds_no_feed(rest, c);
    }
}

proof fn lemma_written_snaps(
    snaps: Seq<(Seq<char>, Seq<char>, Seq<Seq<char>>)>,
    lines: Seq<Seq<char>>,
    n: int,
)
    requires
        0 <= n <= snaps.len(),
        lines.len() == snaps.len() + 1,
        forall|i: int| 0 <= i < snaps.len() ==> in_words(#[trigger] snaps[i]),
        forall|i: int|
            0 <= i < snaps.len() ==> lines[i + 1] == text::join(
                seq![(#[trigger] snaps[i]).0, snaps[i].1] + snaps[i].2,
                " "@,
            ),
    ensures
        snaps_upto(lines, n + 1) == Seq::new(
            n as nat,
            |i: int|
                PackageModel {
                    backend: Backend::Snap,
                    id: snaps[i].0,
                    name: snaps[i].0,
                    version: snaps[i].1,
                    size_bytes: None,
                    aur: false,
                },
        ),
    decreases n,
{
    if n > 0 {
        lemma_written_snaps(snaps, lines, n - 1);
        assert(in_words(snaps[n - 1]));
        let list = seq![snaps[n - 1].0, snaps[n - 1].1] + snaps[n - 1].2;
        assert forall|k: int| 0 <= k < list.len() implies text::one_word(#[trigger] list[k]) by {
            if k >= 2 {
                assert(list[k] == snaps[n - 1].2[k - 2]);
            }
        }
        text::law_words_read_back(list);
        assert(lines[n] == text::join(list, " "@));
    }
    assert(snaps_upto(lines, n + 1) =~= Seq::new(
        n as nat,
        |i: int|
            PackageModel {
                backend: Backend::Snap,
                id: snaps[i].0,
                name: snaps[i].0,
                version: snaps[i].1,
                size_bytes: None,
                aur: false,
            },
    ));
}

/// Every snap that is listed below the head is listed here, by name and
/// version, in the same order, and no other is.
pub proof fn law_listed_snaps_are_read_back(
    head: Seq<char>,
    snaps: Seq<(Seq<char>, Seq<char>, Seq<Seq<char>>)>,
    success: bool,
    stderr: Seq<char>,
)
    requires
        !head.contains('\n'),
        !head.contains('\r'),
        forall|i: int| 0 <= i < snaps.len() ==> in_words(#[trigger] snaps[i]),
    ensures
        list_reply(Ok(OutputModel { success, stdout: written(head, snaps), stderr })) == Seq::new(
            snaps.len(),
            |i: int|
                PackageModel {
                    backend: Backend::Snap,
                    id: snaps[i].0,
                    name: snaps[i].0,
                    version: snaps[i].1,
                    size_bytes: None,
                    aur: false,
                },
        ),
{
    let rows = seq![head] + rows_of(snaps);
    assert forall|i: int| 0 <= i < rows.len() implies !(#[trigger] rows[i]).contains('\n')
        && !rows[i].contains('\r') by {
        if i > 0 {
            let s = snaps[i - 1];
            assert(in_words(s));
            let list = seq![s.0, s.1] + s.2;
            assert forall|k: int| 0 <= k < list.len() implies text::one_word(
                #[trigger] list[k],
            ) by {
                if k >= 2 {
                    assert(list[k] == s.2[k - 2]);
                }
            }
            lemma_joined_holds_no_feed(list, '\n');
            lemma_joined_holds_no_feed(list, '\r');
        }
    }
    text::law_lines_read_back(rows);
    assert forall|i: int| 0 <= i < snaps.len() implies rows[i + 1] == text::join(
        seq![(#[trigger] snaps[i]).0, snaps[i].1] + snaps[i].2,
        " "@,
    ) by {}
    lemma_written_snaps(snaps, rows, snaps.len() as int);
}

/// A snap is removed by its name, which is never taken for a flag.
pub proof fn law_removal_names_the_snap(name: Seq<char>)
    ensures
        removal(name) == seq!["snap"@, "remove"@, "--"@, name],
{
}

/// Snap is asked for what is installed, not for old revisions.
pub proof fn law_old_revisions_are_not_asked_for()
    ensures
        list_argv() == seq!["snap"@].push("list"@),
{
    assert(list_argv() =~= seq!["snap"@].push("list"@));
}

} // verus!

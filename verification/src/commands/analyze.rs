//! `analyze`: where the space below a directory went.

use vstd::prelude::*;
use vstd::utf8::encode_utf8;

use crate::analyze::disk::DiskTotals;
use crate::analyze::sizer::{
    large_files, node, nodes, DirNode, FileModel, LargeFile, NodeModel, ResultModel, ScanResult,
};
use crate::ctx::Ctx;
use crate::host::Host;
use crate::order;
use crate::output::{human, humanize_bytes};
use crate::paths;
use crate::ratio::{percent_string, percent_text, twentieths, twentieths_of};
use crate::text;
use crate::text::{concat2, concat5};

verus! {

broadcast use vstd::seq::group_seq_axioms;

// --------------------------------------------------------------------- the target

/// The directory to look at, every link followed: the one asked for or the
/// home directory. It has to be there, and below the root or the home.
pub open spec fn target(ctx: &Ctx, host: &Host, path: Option<Seq<char>>) -> Result<
    Seq<char>,
    Seq<char>,
> {
    let requested = match path {
        Some(p) => p,
        None => ctx.home@,
    };
    if !host.reaches(requested) {
        Err(requested + ": no such file or directory"@)
    } else {
        match host.real_path(requested) {
            None => Err(host.stat_error(requested)),
            Some(p) => if paths::under(p, ctx.root@) || paths::under(p, ctx.home@) {
                Ok(p)
            } else {
                Err(
                    "path is outside the analyzable area (root: "@ + ctx.root@ + ", home: "@
                        + ctx.home@ + ")"@,
                )
            },
        }
    }
}

pub open spec fn result_view(r: Result<String, String>) -> Result<Seq<char>, Seq<char>> {
    match r {
        Ok(s) => Ok(s@),
        Err(e) => Err(e@),
    }
}

pub fn validated_target(ctx: &Ctx, host: &Host, path: Option<String>) -> (r: Result<String, String>)
    ensures
        result_view(r) == target(ctx, host, text::opt_text(path)),
{
    let requested = match path {
        Some(p) => p,
        None => ctx.home.clone(),
    };
    if !host.is_there(requested.as_str()) {
        return Err(concat2(requested.as_str(), ": no such file or directory"));
    }
    match host.resolve(requested.as_str()) {
        None => Err(host.why_no_stat(requested.as_str())),
        Some(p) => if paths::is_under(p.as_str(), ctx.root.as_str()) || paths::is_under(
            p.as_str(),
            ctx.home.as_str(),
        ) {
            Ok(p)
        } else {
            Err(
                concat5(
                    "path is outside the analyzable area (root: ",
                    ctx.root.as_str(),
                    ", home: ",
                    ctx.home.as_str(),
                    ")",
                ),
            )
        },
    }
}

// ------------------------------------------------------------------------ columns

/// So many copies of a character.
pub open spec fn run_of(c: char, n: nat) -> Seq<char> {
    Seq::new(n, |i: int| c)
}

/// The text with spaces behind it up to a width.
pub open spec fn padded(s: Seq<char>, width: nat) -> Seq<char> {
    if s.len() >= width {
        s
    } else {
        s + run_of(' ', (width - s.len()) as nat)
    }
}

fn push_run(out: &mut String, c: char, n: u128)
    ensures
        final(out)@ == old(out)@ + run_of(c, n as nat),
{
    let mut i: u128 = 0;
    assert(out@ =~= old(out)@ + run_of(c, 0));
    while i < n
        invariant
            i <= n,
            out@ == old(out)@ + run_of(c, i as nat),
        decreases n - i,
    {
        out.push(c);
        assert(out@ =~= old(out)@ + run_of(c, (i + 1) as nat));
        i += 1;
    }
}

fn push_padded(out: &mut String, s: &str, width: usize)
    ensures
        final(out)@ == old(out)@ + padded(s@, width as nat),
{
    out.append(s);
    let n = text::chars_of(s).len();
    if n < width {
        push_run(out, ' ', (width - n) as u128);
        assert(out@ =~= old(out)@ + padded(s@, width as nat));
    }
}

// ---------------------------------------------------------------- the directories

/// A directory as it is shown.
pub struct Row {
    pub name: Seq<char>,
    pub bytes: u64,
}

pub open spec fn row(n: NodeModel) -> Row {
    Row { name: n.name, bytes: n.bytes }
}

/// Whether `a` is shown above `b`: it is larger, or as large with the name
/// that comes first.
pub open spec fn above(a: Row, b: Row) -> bool {
    a.bytes > b.bytes || (a.bytes == b.bytes && order::before(a.name, b.name))
}

/// Where a row goes in `list[..end]`: below everything it is not above.
pub open spec fn place(list: Seq<Row>, r: Row, end: int) -> int
    decreases end,
{
    if end <= 0 || !above(r, list[end - 1]) {
        end
    } else {
        place(list, r, end - 1)
    }
}

/// The rows for the first `n` directories, in order.
pub open spec fn rows(list: Seq<NodeModel>, n: int) -> Seq<Row>
    decreases n,
{
    if n <= 0 {
        Seq::empty()
    } else {
        let before = rows(list, n - 1);
        let r = row(list[n - 1]);
        before.insert(place(before, r, before.len() as int), r)
    }
}

struct NamedSize {
    name: String,
    bytes: u64,
}

spec fn named(v: Seq<NamedSize>) -> Seq<Row> {
    Seq::new(v.len(), |i: int| Row { name: v[i].name@, bytes: v[i].bytes })
}

fn is_above(name: &str, bytes: u64, other: &NamedSize) -> (r: bool)
    ensures
        r == above(
            (Row { name: name@, bytes }),
            (Row { name: other.name@, bytes: other.bytes }),
        ),
{
    bytes > other.bytes || (bytes == other.bytes && order::is_before(name, other.name.as_str()))
}

fn rows_of(list: &Vec<DirNode>) -> (r: Vec<NamedSize>)
    ensures
        named(r@) == rows(nodes(list@), list@.len() as int),
        r@.len() == list@.len(),
{
    let ghost all = nodes(list@);
    let mut out: Vec<NamedSize> = Vec::new();
    let mut i: usize = 0;
    assert(named(out@) =~= Seq::empty());
    while i < list.len()
        invariant
            i <= list.len(),
            all == nodes(list@),
            out.len() == i,
            named(out@) == rows(all, i as int),
        decreases list.len() - i,
    {
        assert(all[i as int] == node(list@[i as int]));
        let ghost before = named(out@);
        let ghost this = row(all[i as int]);
        let name = list[i].name.as_str();
        let mut at: usize = out.len();
        while at > 0 && is_above(name, list[i].bytes, &out[at - 1])
            invariant
                i < list.len(),
                at <= out.len(),
                before == named(out@),
                this == (Row { name: list@[i as int].name@, bytes: list@[i as int].bytes }),
                name@ == list@[i as int].name@,
                place(before, this, before.len() as int) == place(before, this, at as int),
            decreases at,
        {
            assert(before[at - 1] == (Row { name: out@[at - 1].name@, bytes: out@[at - 1].bytes }));
            at -= 1;
        }
        proof {
            if at > 0 {
                assert(before[at - 1] == (Row {
                    name: out@[at - 1].name@,
                    bytes: out@[at - 1].bytes,
                }));
            }
        }
        out.insert(at, NamedSize { name: list[i].name.clone(), bytes: list[i].bytes });
        assert(named(out@) =~= before.insert(at as int, this));
        i += 1;
    }
    out
}

pub open spec fn at_most(n: nat, most: nat) -> nat {
    if n < most {
        n
    } else {
        most
    }
}

/// The width of the longest of the first `n` names, in bytes.
pub open spec fn widest(list: Seq<Row>, n: int) -> nat
    decreases n,
{
    if n <= 0 {
        0
    } else {
        let before = widest(list, n - 1);
        let this = encode_utf8(list[n - 1].name).len();
        if this > before {
            this
        } else {
            before
        }
    }
}

/// The bar of a directory: one mark for each twentieth of the whole, and at
/// least one for anything at all.
pub open spec fn bar_length(bytes: u64, whole: u64) -> nat {
    let n = twentieths(bytes as nat, whole as nat);
    if n == 0 && bytes > 0 {
        1
    } else {
        n
    }
}

/// The line of a directory: name, size, share and bar.
pub open spec fn row_text(r: Row, width: nat, whole: u64) -> Seq<char> {
    "\n  "@ + padded(r.name, width) + "  "@ + padded(human(r.bytes as nat), 9) + "  "@ + padded(
        percent_text(r.bytes as nat, whole as nat),
        6,
    ) + "  "@ + run_of('#', bar_length(r.bytes, whole))
}

pub open spec fn rows_text(list: Seq<Row>, n: int, width: nat, whole: u64) -> Seq<char>
    decreases n,
{
    if n <= 0 {
        Seq::empty()
    } else {
        rows_text(list, n - 1, width, whole) + row_text(list[n - 1], width, whole)
    }
}

/// The fifteen largest directories.
pub open spec fn directories_text(root: NodeModel) -> Seq<char> {
    if root.children.len() == 0 {
        " (none)"@
    } else {
        let list = rows(root.children, root.children.len() as int);
        let n = at_most(list.len(), 15) as int;
        rows_text(list, n, widest(list, n), root.bytes)
    }
}

fn directories_of(root: &DirNode) -> (r: String)
    ensures
        r@ == directories_text(node(*root)),
{
    assert(node(*root).children =~= nodes(root.children@));
    if root.children.len() == 0 {
        return " (none)".to_owned();
    }
    let list = rows_of(&root.children);
    let ghost all = named(list@);
    assert(all.len() == list@.len());
    let n: usize = if list.len() < 15 {
        list.len()
    } else {
        15
    };
    let mut width: usize = 0;
    let mut i: usize = 0;
    while i < n
        invariant
            i <= n <= list.len(),
            all == named(list@),
            width == widest(all, i as int),
        decreases n - i,
    {
        assert(all[i as int] == (Row { name: list@[i as int].name@, bytes: list@[i as int].bytes }));
        let this = list[i].name.as_str().as_bytes().len();
        if this > width {
            width = this;
        }
        i += 1;
    }
    let mut out = String::new();
    let mut k: usize = 0;
    while k < n
        invariant
            k <= n <= list.len(),
            all == named(list@),
            out@ == rows_text(all, k as int, width as nat, root.bytes),
        decreases n - k,
    {
        assert(all[k as int] == (Row { name: list@[k as int].name@, bytes: list@[k as int].bytes }));
        let ghost had = out@;
        let bytes: u64 = list[k].bytes;
        let size = humanize_bytes(bytes);
        let share = percent_string(bytes, root.bytes);
        let marks: u128 = twentieths_of(bytes, root.bytes);
        let length: u128 = if marks == 0 && bytes > 0 {
            1
        } else {
            marks
        };
        out.append("\n  ");
        push_padded(&mut out, list[k].name.as_str(), width);
        out.append("  ");
        push_padded(&mut out, size.as_str(), 9);
        out.append("  ");
        push_padded(&mut out, share.as_str(), 6);
        out.append("  ");
        push_run(&mut out, '#', length);
        assert(out@ =~= had + row_text(all[k as int], width as nat, root.bytes));
        k += 1;
    }
    out
}

// ----------------------------------------------------------------------- the files

/// A path as seen from the directory that was looked at.
pub open spec fn seen_from(path: Seq<char>, base: Seq<char>) -> Seq<char> {
    match paths::relative(path, base) {
        Some(rel) => rel,
        None => path,
    }
}

pub open spec fn files_text(list: Seq<FileModel>, n: int, base: Seq<char>) -> Seq<char>
    decreases n,
{
    if n <= 0 {
        Seq::empty()
    } else {
        files_text(list, n - 1, base) + ("\n  "@ + padded(human(list[n - 1].bytes as nat), 9)
            + "  "@ + seen_from(list[n - 1].path, base))
    }
}

fn files_of(list: &Vec<LargeFile>, n: usize, base: &str) -> (r: String)
    requires
        n <= list.len(),
    ensures
        r@ == files_text(large_files(list@), n as int, base@),
{
    let ghost all = large_files(list@);
    let mut out = String::new();
    let mut i: usize = 0;
    while i < n
        invariant
            i <= n <= list.len(),
            all == large_files(list@),
            out@ == files_text(all, i as int, base@),
        decreases n - i,
    {
        assert(all[i as int] == list@[i as int]@);
        let ghost had = out@;
        let size = humanize_bytes(list[i].bytes);
        let path = match paths::relative_to(list[i].path.as_str(), base) {
            Some(rel) => rel,
            None => list[i].path.clone(),
        };
        out.append("\n  ");
        push_padded(&mut out, size.as_str(), 9);
        out.append("  ");
        out.append(path.as_str());
        assert(out@ =~= files_text(all, i + 1, base@));
        i += 1;
    }
    out
}

// ---------------------------------------------------------------------- the report

/// The line on the filesystem.
pub open spec fn totals_text(totals: &DiskTotals) -> Seq<char> {
    "Disk ("@ + totals.fs_kind@ + "): "@ + human(totals.used as nat) + " used of "@ + human(
        totals.total as nat,
    ) + ", "@ + human(totals.available as nat) + " available"@ + (match totals.btrfs_unallocated {
        Some(n) => ", "@ + human(n as nat) + " unallocated"@,
        None => ""@,
    })
}

pub fn totals_line(totals: &DiskTotals) -> (r: String)
    ensures
        r@ == totals_text(totals),
{
    let used = humanize_bytes(totals.used);
    let total = humanize_bytes(totals.total);
    let available = humanize_bytes(totals.available);
    let mut out = concat5("Disk (", totals.fs_kind.as_str(), "): ", used.as_str(), " used of ");
    out.append(total.as_str());
    out.append(", ");
    out.append(available.as_str());
    out.append(" available");
    let rest = match totals.btrfs_unallocated {
        Some(n) => {
            let size = humanize_bytes(n);
            text::concat3(", ", size.as_str(), " unallocated")
        },
        None => "".to_owned(),
    };
    out.append(rest.as_str());
    out
}

pub open spec fn report_text(base: Seq<char>, result: ResultModel, totals: &DiskTotals) -> Seq<
    char,
> {
    base + " — "@ + human(result.root.bytes as nat) + " in "@ + text::decimal(
        result.root.files as nat,
    ) + " files\n"@ + totals_text(totals) + "\n\nDirectories:"@ + directories_text(result.root)
        + "\n\nLargest files:"@ + (if result.top_files.len() == 0 {
        " (none)"@
    } else {
        files_text(result.top_files, at_most(result.top_files.len(), 10) as int, base)
    })
}

/// What the command has to say.
#[derive(Debug)]
pub struct AnalyzeOutput {
    pub rendered: String,
}

/// What is said of a scan.
pub fn report(base: &str, result: &ScanResult, totals: &DiskTotals) -> (r: AnalyzeOutput)
    ensures
        r.rendered@ == report_text(base@, result@, totals),
{
    AnalyzeOutput { rendered: render_human(base, result, totals) }
}

/// The report for people: totals, the filesystem, the largest directories
/// with their shares, and the largest files anywhere below.
pub fn render_human(base: &str, result: &ScanResult, totals: &DiskTotals) -> (r: String)
    ensures
        r@ == report_text(base@, result@, totals),
{
    let size = humanize_bytes(result.root.bytes);
    let count = text::decimal_text(result.root.files);
    let disk = totals_line(totals);
    let dirs = directories_of(&result.root);
    assert(large_files(result.top_files@).len() == result.top_files@.len());
    let files = if result.top_files.len() == 0 {
        " (none)".to_owned()
    } else {
        let n: usize = if result.top_files.len() < 10 {
            result.top_files.len()
        } else {
            10
        };
        files_of(&result.top_files, n, base)
    };
    let mut out = concat5(base, " — ", size.as_str(), " in ", count.as_str());
    out.append(" files\n");
    out.append(disk.as_str());
    out.append("\n\nDirectories:");
    out.append(dirs.as_str());
    out.append("\n\nLargest files:");
    out.append(files.as_str());
    out
}

// ------------------------------------------------------------------------ laws


/// The directories are shown by size, the largest first, each of them once.
pub proof fn law_directories_come_by_size(list: Seq<NodeModel>, n: int)
    requires
        0 <= n <= list.len(),
    ensures
        rows(list, n).len() == n,
        forall|i: int, j: int|
            0 <= i < j < n ==> (#[trigger] rows(list, n)[i]).bytes >= (#[trigger] rows(
                list,
                n,
            )[j]).bytes,
        forall|k: int|
            0 <= k < n ==> exists|i: int|
                0 <= i < n && #[trigger] rows(list, n)[i] == (Row {
                    name: (#[trigger] list[k]).name,
                    bytes: list[k].bytes,
                }),
    decreases n,
{
    if n > 0 {
        law_directories_come_by_size(list, n - 1);
        let before = rows(list, n - 1);
        let r = row(list[n - 1]);
        let at = place(before, r, before.len() as int);
        lemma_place(before, r, before.len() as int);
        let out = rows(list, n);
        assert(out == before.insert(at, r));
        assert forall|i: int, j: int| 0 <= i < j < n implies (#[trigger] out[i]).bytes >= (
        #[trigger] out[j]).bytes by {
            if i < at && j == at {
                assert(out[i] == before[i]);
                if i < at - 1 {
                    assert(before[i].bytes >= before[at - 1].bytes);
                }
            } else if i == at {
                assert(out[j] == before[j - 1]);
            } else {
                let a = if i < at {
                    i
                } else {
                    i - 1
                };
                let b = if j < at {
                    j
                } else {
                    j - 1
                };
                assert(out[i] == before[a] && out[j] == before[b]);
            }
        }
        assert forall|k: int| 0 <= k < n implies exists|i: int|
            0 <= i < n && #[trigger] out[i] == (Row {
                name: (#[trigger] list[k]).name,
                bytes: list[k].bytes,
            }) by {
            if k == n - 1 {
                assert(out[at] == r);
            } else {
                let i = choose|i: int|
                    0 <= i < n - 1 && #[trigger] before[i] == (Row {
                        name: list[k].name,
                        bytes: list[k].bytes,
                    });
                let m = if i < at {
                    i
                } else {
                    i + 1
                };
                assert(out[m] == before[i]);
            }
        }
    }
}

proof fn lemma_place(list: Seq<Row>, r: Row, end: int)
    requires
        0 <= end <= list.len(),
    ensures
        0 <= place(list, r, end) <= end,
        place(list, r, end) > 0 ==> list[place(list, r, end) - 1].bytes >= r.bytes,
        forall|k: int| place(list, r, end) <= k < end ==> r.bytes >= (#[trigger] list[k]).bytes,
    decreases end,
{
    if end > 0 && above(r, list[end - 1]) {
        lemma_place(list, r, end - 1);
    }
}

/// What is looked at is where the path that was asked for leads, or the home
/// directory where none was. It has to lead somewhere below the root or home.
pub proof fn law_only_what_can_be_reached_is_looked_at(
    ctx: &Ctx,
    host: &Host,
    path: Option<Seq<char>>,
)
    ensures
        ({
            let asked = if path is Some {
                path->0
            } else {
                ctx.home@
            };
            match target(ctx, host, path) {
                Ok(p) => {
                    &&& host.found(asked) is Some
                    &&& host.real_path(asked) == Some(p)
                    &&& paths::under(p, ctx.root@) || paths::under(p, ctx.home@)
                },
                Err(why) => {
                    ||| host.found(asked) is None
                    ||| host.found(asked)->0.kind == crate::host::Kind::Link && !host.found(
                        asked,
                    )->0.leads_to_dir && !host.found(asked)->0.leads_to_file
                    ||| host.real_path(asked) is None
                    ||| !paths::under(host.real_path(asked)->0, ctx.root@) && !paths::under(
                        host.real_path(asked)->0,
                        ctx.home@,
                    )
                },
            }
        }),
{
}

/// The report tells all that was found, how much in how many files, and how
/// full the filesystem is.
pub proof fn law_the_report_tells_the_totals(
    base: Seq<char>,
    result: ResultModel,
    totals: &DiskTotals,
)
    ensures
        text::contains(
            report_text(base, result, totals),
            base + " — "@ + human(result.root.bytes as nat) + " in "@ + text::decimal(
                result.root.files as nat,
            ) + " files\n"@,
        ),
        text::contains(
            report_text(base, result, totals),
            "Disk ("@ + totals.fs_kind@ + "): "@ + human(totals.used as nat) + " used of "@
                + human(totals.total as nat) + ", "@ + human(totals.available as nat)
                + " available"@,
        ),
{
    let p = base + " — "@ + human(result.root.bytes as nat) + " in "@ + text::decimal(
        result.root.files as nat,
    ) + " files\n"@;
    let q = "Disk ("@ + totals.fs_kind@ + "): "@ + human(totals.used as nat) + " used of "@
        + human(totals.total as nat) + ", "@ + human(totals.available as nat) + " available"@;
    assert(text::contains(report_text(base, result, totals), p)) by {
        text::lemma_contains_on(p);
    }
    assert(text::contains(report_text(base, result, totals), q)) by {
        text::lemma_contains_on(q);
        assert(text::contains(totals_text(totals), q));
        text::lemma_contains_more(p, totals_text(totals), q);
    }
}

proof fn lemma_padded_holds(s: Seq<char>, width: nat)
    ensures
        text::contains(padded(s, width), s),
{
    text::lemma_contains_on(s);
}

proof fn lemma_row_holds(r: Row, width: nat, whole: u64)
    ensures
        text::contains(row_text(r, width, whole), r.name),
        text::contains(row_text(r, width, whole), human(r.bytes as nat)),
        text::contains(row_text(r, width, whole), percent_text(r.bytes as nat, whole as nat)),
{
    let name = padded(r.name, width);
    let size = padded(human(r.bytes as nat), 9);
    let share = padded(percent_text(r.bytes as nat, whole as nat), 6);
    assert(text::contains(row_text(r, width, whole), r.name)) by {
        text::lemma_contains_on(r.name);
        lemma_padded_holds(r.name, width);
        text::lemma_contains_more("\n  "@, name, r.name);
    }
    assert(text::contains(row_text(r, width, whole), human(r.bytes as nat))) by {
        text::lemma_contains_on(human(r.bytes as nat));
        lemma_padded_holds(human(r.bytes as nat), 9);
        text::lemma_contains_more("\n  "@ + name + "  "@, size, human(r.bytes as nat));
    }
    let p = percent_text(r.bytes as nat, whole as nat);
    assert(text::contains(row_text(r, width, whole), p)) by {
        text::lemma_contains_on(p);
        lemma_padded_holds(p, 6);
        text::lemma_contains_more("\n  "@ + name + "  "@ + size + "  "@, share, p);
    }
}

proof fn lemma_rows_hold(list: Seq<Row>, n: int, i: int, width: nat, whole: u64, p: Seq<char>)
    requires
        0 <= i < n <= list.len(),
        text::contains(row_text(list[i], width, whole), p),
    ensures
        text::contains(rows_text(list, n, width, whole), p),
    decreases n,
{
    text::lemma_contains_on(p);
    if i < n - 1 {
        lemma_rows_hold(list, n - 1, i, width, whole, p);
    }
    text::lemma_contains_more(
        rows_text(list, n - 1, width, whole),
        row_text(list[n - 1], width, whole),
        p,
    );
}

proof fn lemma_directories_in_report(
    base: Seq<char>,
    result: ResultModel,
    totals: &DiskTotals,
    p: Seq<char>,
)
    requires
        text::contains(directories_text(result.root), p),
    ensures
        text::contains(report_text(base, result, totals), p),
{
    let front = base + " — "@ + human(result.root.bytes as nat) + " in "@ + text::decimal(
        result.root.files as nat,
    ) + " files\n"@ + totals_text(totals) + "\n\nDirectories:"@;
    text::lemma_contains_on(p);
    text::lemma_contains_more(front, directories_text(result.root), p);
}

/// The report shows the largest directories, fifteen at most: each with its
/// name, its size, and its share of the whole.
pub proof fn law_the_report_shows_the_largest_directories(
    base: Seq<char>,
    result: ResultModel,
    totals: &DiskTotals,
    i: int,
)
    requires
        0 <= i < result.root.children.len(),
        i < 15,
    ensures
        ({
            let r = rows(result.root.children, result.root.children.len() as int)[i];
            let out = report_text(base, result, totals);
            &&& text::contains(out, r.name)
            &&& text::contains(out, human(r.bytes as nat))
            &&& text::contains(out, percent_text(r.bytes as nat, result.root.bytes as nat))
        }),
{
    let whole = result.root.bytes;
    law_directories_come_by_size(result.root.children, result.root.children.len() as int);
    let list = rows(result.root.children, result.root.children.len() as int);
    let n = at_most(list.len(), 15) as int;
    let width = widest(list, n);
    let r = list[i];
    let share = percent_text(r.bytes as nat, whole as nat);
    lemma_row_holds(r, width, whole);
    lemma_rows_hold(list, n, i, width, whole, r.name);
    lemma_rows_hold(list, n, i, width, whole, human(r.bytes as nat));
    lemma_rows_hold(list, n, i, width, whole, share);
    lemma_directories_in_report(base, result, totals, r.name);
    lemma_directories_in_report(base, result, totals, human(r.bytes as nat));
    lemma_directories_in_report(base, result, totals, share);
}

proof fn lemma_files_hold(list: Seq<FileModel>, n: int, i: int, base: Seq<char>)
    requires
        0 <= i < n <= list.len(),
    ensures
        text::contains(files_text(list, n, base), human(list[i].bytes as nat)),
        text::contains(files_text(list, n, base), seen_from(list[i].path, base)),
    decreases n,
{
    let before = files_text(list, n - 1, base);
    let size = padded(human(list[n - 1].bytes as nat), 9);
    let line = "\n  "@ + size + "  "@ + seen_from(list[n - 1].path, base);
    let a = human(list[i].bytes as nat);
    let b = seen_from(list[i].path, base);
    if i < n - 1 {
        lemma_files_hold(list, n - 1, i, base);
    } else {
        assert(text::contains(line, a)) by {
            text::lemma_contains_on(a);
            lemma_padded_holds(a, 9);
            text::lemma_contains_more("\n  "@, size, a);
        }
        assert(text::contains(line, b)) by {
            text::lemma_contains_on(b);
            text::lemma_contains_more("\n  "@ + size + "  "@, b, b);
        }
    }
    text::lemma_contains_more(before, line, a);
    text::lemma_contains_more(before, line, b);
}

/// The report shows the largest files, ten at most: each with its size and
/// where it lies.
pub proof fn law_the_report_shows_the_largest_files(
    base: Seq<char>,
    result: ResultModel,
    totals: &DiskTotals,
    i: int,
)
    requires
        0 <= i < result.top_files.len(),
        i < 10,
    ensures
        ({
            let f = result.top_files[i];
            let out = report_text(base, result, totals);
            &&& text::contains(out, human(f.bytes as nat))
            &&& text::contains(out, seen_from(f.path, base))
        }),
{
    let list = result.top_files;
    let n = at_most(list.len(), 10) as int;
    lemma_files_hold(list, n, i, base);
    let files = files_text(list, n, base);
    let front = base + " — "@ + human(result.root.bytes as nat) + " in "@ + text::decimal(
        result.root.files as nat,
    ) + " files\n"@ + totals_text(totals) + "\n\nDirectories:"@ + directories_text(result.root)
        + "\n\nLargest files:"@;
    assert(report_text(base, result, totals) == front + files);
    text::lemma_contains_more(front, files, human(list[i].bytes as nat));
    text::lemma_contains_more(front, files, seen_from(list[i].path, base));
}

} // verus!

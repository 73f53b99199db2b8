//! How much each directory holds, and which files are the largest.

use vstd::prelude::*;

use crate::host::{lemma_room_shrinks, room, Entry, Host, Kind};
use crate::order;
use crate::order::Keyed;
use crate::paths;
use crate::safety::deleter::capped_sum;
use crate::text;

verus! {

broadcast use vstd::seq::group_seq_axioms;

/// One directory. The totals cover everything below it, also where its
/// children are not kept: only the tree is cut, never the numbers.
#[derive(Debug)]
pub struct DirNode {
    pub path: String,
    pub name: String,
    pub bytes: u64,
    pub files: u64,
    /// Seconds since the epoch of the last change.
    pub mtime: i64,
    pub children: Vec<DirNode>,
    pub truncated_depth: bool,
}

/// A directory as a mathematical value.
pub struct NodeModel {
    pub path: Seq<char>,
    pub name: Seq<char>,
    pub bytes: u64,
    pub files: u64,
    pub mtime: i64,
    pub children: Seq<NodeModel>,
    pub truncated_depth: bool,
}

pub open spec fn node(n: DirNode) -> NodeModel
    decreases n,
{
    NodeModel {
        path: n.path@,
        name: n.name@,
        bytes: n.bytes,
        files: n.files,
        mtime: n.mtime,
        children: Seq::new(
            n.children@.len(),
            |i: int|
                if 0 <= i < n.children@.len() {
                    node(n.children@[i])
                } else {
                    arbitrary()
                },
        ),
        truncated_depth: n.truncated_depth,
    }
}

pub open spec fn nodes(v: Seq<DirNode>) -> Seq<NodeModel> {
    Seq::new(v.len(), |i: int| node(v[i]))
}

proof fn lemma_node(n: DirNode)
    ensures
        node(n).children == nodes(n.children@),
{
    assert(node(n).children =~= nodes(n.children@));
}

#[derive(Debug)]
pub struct ScanOptions {
    pub max_depth: usize,
    pub workers: usize,
    pub top_files_limit: usize,
}

impl ScanOptions {
    /// Two levels of directories and the fifty largest files. As many
    /// workers as the machine has cores, or four where that is not known.
    pub fn for_cores(cores: Option<usize>) -> (r: ScanOptions)
        ensures
            r.max_depth == 2,
            r.workers == (match cores {
                Some(n) => n,
                None => 4,
            }),
            r.top_files_limit == 50,
    {
        ScanOptions {
            max_depth: 2,
            workers: match cores {
                Some(n) => n,
                None => 4,
            },
            top_files_limit: 50,
        }
    }
}

/// One of the largest files of a tree.
#[derive(Debug, PartialEq, Eq)]
pub struct LargeFile {
    pub path: String,
    pub bytes: u64,
    pub mtime: i64,
}

pub struct FileModel {
    pub path: Seq<char>,
    pub bytes: u64,
    pub mtime: i64,
}

impl View for LargeFile {
    type V = FileModel;

    open spec fn view(&self) -> FileModel {
        FileModel { path: self.path@, bytes: self.bytes, mtime: self.mtime }
    }
}

pub open spec fn large_files(v: Seq<LargeFile>) -> Seq<FileModel> {
    Seq::new(v.len(), |i: int| v[i]@)
}

// --------------------------------------------------------------- the largest files

/// Whether `a` comes before `b` in a list of the largest files: it is larger,
/// or as large with the path that comes first.
pub open spec fn larger(a: FileModel, b: FileModel) -> bool {
    a.bytes > b.bytes || (a.bytes == b.bytes && order::list_before(
        order::path_key(a.path),
        order::path_key(b.path),
    ))
}

fn is_larger(a: &LargeFile, b: &LargeFile) -> (r: bool)
    ensures
        r == larger(a@, b@),
{
    if a.bytes != b.bytes {
        return a.bytes > b.bytes;
    }
    order::is_list_before(
        &order::path_key_list(a.path.as_str()),
        &order::path_key_list(b.path.as_str()),
    )
}

/// Where a file goes in `list[..end]`: behind everything it is not larger
/// than.
pub open spec fn rank(list: Seq<FileModel>, file: FileModel, end: int) -> int
    decreases end,
{
    if end <= 0 || !larger(file, list[end - 1]) {
        end
    } else {
        rank(list, file, end - 1)
    }
}

/// The list with the file in its place, and no longer than `limit`.
pub open spec fn offered(list: Seq<FileModel>, limit: nat, file: FileModel) -> Seq<FileModel> {
    let longer = list.insert(rank(list, file, list.len() as int), file);
    if longer.len() > limit {
        longer.take(limit as int)
    } else {
        longer
    }
}

/// The list after the first `n` files were offered to it.
pub open spec fn offered_all(
    list: Seq<FileModel>,
    limit: nat,
    files: Seq<FileModel>,
    n: int,
) -> Seq<FileModel>
    decreases n,
{
    if n <= 0 {
        list
    } else {
        offered(offered_all(list, limit, files, n - 1), limit, files[n - 1])
    }
}

proof fn lemma_rank(list: Seq<FileModel>, file: FileModel, end: int)
    requires
        0 <= end <= list.len(),
    ensures
        0 <= rank(list, file, end) <= end,
        rank(list, file, end) > 0 ==> !larger(file, list[rank(list, file, end) - 1]),
        forall|k: int| rank(list, file, end) <= k < end ==> larger(file, #[trigger] list[k]),
    decreases end,
{
    if end > 0 && larger(file, list[end - 1]) {
        lemma_rank(list, file, end - 1);
    }
}

/// Offers a file to a list of the largest, which is kept in order and holds
/// at most `limit`: where it is full the last one gives way to a larger one.
pub fn push_bounded(list: &mut Vec<LargeFile>, limit: usize, file: LargeFile)
    requires
        old(list)@.len() <= limit,
    ensures
        large_files(final(list)@) == offered(large_files(old(list)@), limit as nat, file@),
        final(list)@.len() <= limit,
{
    let ghost all = large_files(list@);
    let ghost one = file@;
    let mut at: usize = list.len();
    while at > 0 && is_larger(&file, &list[at - 1])
        invariant
            at <= list.len(),
            all == large_files(list@),
            one == file@,
            rank(all, one, all.len() as int) == rank(all, one, at as int),
        decreases at,
    {
        assert(all[at - 1] == list@[at - 1]@);
        at -= 1;
    }
    proof {
        lemma_rank(all, one, all.len() as int);
        if at > 0 {
            assert(all[at - 1] == list@[at - 1]@);
        }
    }
    if list.len() < limit {
        list.insert(at, file);
        assert(large_files(list@) =~= all.insert(at as int, one));
    } else {
        assert(list.len() == limit);
        if at < limit {
            let ghost before = list@;
            list.pop();
            list.insert(at, file);
            assert(large_files(list@) =~= all.insert(at as int, one).take(limit as int));
        } else {
            assert(all.insert(at as int, one).take(limit as int) =~= all);
        }
    }
}

// ------------------------------------------------------------------------ the walk

/// Whether a directory lies on another filesystem than the scan.
pub fn crosses_device(child_dev: u64, top_dev: u64) -> (r: bool)
    ensures
        r == (child_dev != top_dev),
{
    child_dev != top_dev
}

/// Whether progress is told at this many directories.
pub fn is_progress_checkpoint(n: u64) -> (r: bool)
    ensures
        r == (n % 100 == 0),
{
    n % 100 == 0
}

pub open spec fn last_name(path: Seq<char>) -> Seq<char> {
    match paths::file_name(path) {
        Some(name) => name,
        None => ""@,
    }
}

fn file_name_lossy(path: &str) -> (r: String)
    ensures
        r@ == last_name(path@),
{
    match paths::file_name_of(path) {
        Some(name) => name,
        None => "".to_owned(),
    }
}

/// The time of an entry in whole seconds; the epoch where it is not known.
pub open spec fn seconds(entry: Entry) -> i64 {
    match entry.modified {
        Some(nanos) => (nanos as int / 1_000_000_000) as i64,
        None => 0,
    }
}

fn seconds_of(entry: &Entry) -> (r: i64)
    ensures
        r == seconds(*entry),
{
    match entry.modified {
        Some(nanos) => if nanos >= 0 {
            nanos / 1_000_000_000
        } else {
            let n: i128 = nanos as i128;
            let up: i128 = -n + 999_999_999;
            let whole: i128 = up / 1_000_000_000;
            assert(nanos as int / 1_000_000_000 == -whole) by (nonlinear_arith)
                requires
                    nanos < 0,
                    up == -nanos + 999_999_999,
                    whole == up / 1_000_000_000,
            ;
            (-whole) as i64
        },
        None => 0,
    }
}

/// What a walk finds: totals, the directories below, and what is told.
pub struct Below {
    pub bytes: u64,
    pub files: u64,
    pub children: Seq<NodeModel>,
    pub visited: nat,
    pub warnings: Seq<Seq<char>>,
    pub mounts: Seq<Seq<char>>,
    pub list: Seq<FileModel>,
    /// How many entries may still be looked at, if there is an end to it.
    pub left: Option<nat>,
}

pub open spec fn nothing(left: Option<nat>) -> Below {
    Below {
        bytes: 0,
        files: 0,
        children: Seq::empty(),
        visited: 0,
        warnings: Seq::empty(),
        mounts: Seq::empty(),
        list: Seq::empty(),
        left,
    }
}

/// One entry fewer to look at.
pub open spec fn one_fewer(left: Option<nat>) -> Option<nat> {
    match left {
        Some(n) => Some((n - 1) as nat),
        None => None,
    }
}

/// What is found in and below the directory `path`, of whose tree so many
/// levels are kept. `children` holds the directory's own children, also where
/// they are then cut. The walk ends where nothing is left to look at.
pub open spec fn walked(
    path: Seq<char>,
    levels: nat,
    top_dev: u64,
    host: &Host,
    left: Option<nat>,
) -> Below
    decreases room(path, host), 1nat, 0nat,
{
    match host.listing(path) {
        Some(names) => {
            let found = walked_names(path, names, names.len(), levels, top_dev, host, left);
            Below { visited: found.visited + 1, ..found }
        },
        None => Below {
            visited: 1,
            warnings: seq![path + ": "@ + host.stat_error(path)],
            ..nothing(left)
        },
    }
}

/// How many levels are kept one step further down.
pub open spec fn one_less(levels: nat) -> nat {
    if levels == 0 {
        0
    } else {
        (levels - 1) as nat
    }
}

/// The node of a directory for what is found below it. Its children are kept
/// where any level below it is.
pub open spec fn node_of(
    path: Seq<char>,
    name: Seq<char>,
    mtime: i64,
    found: Below,
    levels: nat,
) -> NodeModel {
    NodeModel {
        path,
        name,
        bytes: found.bytes,
        files: found.files,
        mtime,
        children: if levels == 0 {
            Seq::empty()
        } else {
            found.children
        },
        truncated_depth: levels == 0 && found.children.len() > 0,
    }
}

/// What is found at the first `n` names. Snapshots are passed over, and so
/// are other filesystems, which are told of.
pub open spec fn walked_names(
    dir: Seq<char>,
    names: Seq<Seq<char>>,
    n: nat,
    levels: nat,
    top_dev: u64,
    host: &Host,
    left: Option<nat>,
) -> Below
    decreases room(dir, host), 0nat, n,
{
    if n == 0 {
        nothing(left)
    } else {
        let so_far = walked_names(dir, names, (n - 1) as nat, levels, top_dev, host, left);
        let before = Below { left: one_fewer(so_far.left), ..so_far };
        let path = paths::joined(dir, names[n - 1]);
        let name = last_name(path);
        if so_far.left == Some(0nat) {
            so_far
        } else {
            match host.found(path) {
                None => before,
                Some(entry) => if entry.kind != Kind::Dir {
                    Below {
                        bytes: capped_sum(before.bytes, entry.size),
                        files: capped_sum(before.files, 1),
                        list: before.list.push(
                            (FileModel { path, bytes: entry.size, mtime: seconds(entry) }),
                        ),
                        ..before
                    }
                } else if name == ".snapshots"@ || path.len() <= dir.len() {
                    before
                } else if entry.dev != top_dev {
                    Below { mounts: before.mounts.push(path), ..before }
                } else {
                    proof {
                        lemma_room_shrinks(dir, path, host);
                    }
                    let found = walked(path, one_less(levels), top_dev, host, before.left);
                    let child = node_of(path, name, seconds(entry), found, one_less(levels));
                    Below {
                        bytes: capped_sum(before.bytes, child.bytes),
                        files: capped_sum(before.files, child.files),
                        children: before.children.push(child),
                        visited: before.visited + found.visited,
                        warnings: before.warnings + found.warnings,
                        mounts: before.mounts + found.mounts,
                        list: before.list + found.list,
                        left: found.left,
                    }
                },
            }
        }
    }
}

proof fn lemma_offered_both(
    list: Seq<FileModel>,
    limit: nat,
    a: Seq<FileModel>,
    b: Seq<FileModel>,
    n: int,
)
    requires
        0 <= n <= b.len(),
    ensures
        offered_all(list, limit, a + b, a.len() + n) == offered_all(
            offered_all(list, limit, a, a.len() as int),
            limit,
            b,
            n,
        ),
    decreases n,
{
    if n == 0 {
        lemma_offered_prefix(list, limit, a, b, a.len() as int);
    } else {
        lemma_offered_both(list, limit, a, b, n - 1);
        assert((a + b)[a.len() + n - 1] == b[n - 1]);
    }
}

proof fn lemma_offered_prefix(
    list: Seq<FileModel>,
    limit: nat,
    a: Seq<FileModel>,
    b: Seq<FileModel>,
    n: int,
)
    requires
        0 <= n <= a.len(),
    ensures
        offered_all(list, limit, a + b, n) == offered_all(list, limit, a, n),
    decreases n,
{
    if n > 0 {
        lemma_offered_prefix(list, limit, a, b, n - 1);
        assert((a + b)[n - 1] == a[n - 1]);
    }
}

/// What is gathered over a whole scan.
struct Tally {
    visited: u64,
    warnings: Vec<String>,
    mounts: Vec<String>,
    top: Vec<LargeFile>,
    left: Option<u64>,
}

pub open spec fn opt_nat(o: Option<u64>) -> Option<nat> {
    match o {
        Some(n) => Some(n as nat),
        None => None,
    }
}

/// A count, or the largest number there is.
pub open spec fn capped(n: nat) -> u64 {
    if n > u64::MAX {
        u64::MAX
    } else {
        n as u64
    }
}

impl Tally {
    /// Whether `after` is this with the findings of a walk.
    spec fn grew(&self, after: Tally, found: Below, limit: nat) -> bool {
        &&& after.visited == capped((self.visited + found.visited) as nat)
        &&& text::texts(after.warnings@) == text::texts(self.warnings@) + found.warnings
        &&& text::texts(after.mounts@) == text::texts(self.mounts@) + found.mounts
        &&& large_files(after.top@) == offered_all(
            large_files(self.top@),
            limit,
            found.list,
            found.list.len() as int,
        )
        &&& after.top@.len() <= limit
        &&& opt_nat(after.left) == found.left
    }
}

/// Walks the directory `path` all the way down.
fn build_below(
    path: &str,
    levels: usize,
    top_dev: u64,
    limit: usize,
    host: &Host,
    tally: &mut Tally,
) -> (r: (u64, u64, Vec<DirNode>))
    requires
        old(tally).top@.len() <= limit,
    ensures
        ({
            let found = walked(path@, levels as nat, top_dev, host, opt_nat(old(tally).left));
            &&& r.0 == found.bytes
            &&& r.1 == found.files
            &&& nodes(r.2@) == found.children
            &&& old(tally).grew(*final(tally), found, limit as nat)
        }),
    decreases room(path@, host),
{
    let ghost start = *tally;
    tally.visited = tally.visited.saturating_add(1);
    let mut bytes: u64 = 0;
    let mut files: u64 = 0;
    let mut children: Vec<DirNode> = Vec::new();
    assert(nodes(children@) =~= Seq::empty());
    let names = match host.list(path) {
        Some(names) => names,
        None => {
            let ghost had = tally.warnings@;
            let why = host.why_no_stat(path);
            let warning = text::concat3(path, ": ", why.as_str());
            tally.warnings.push(warning);
            assert(text::texts(tally.warnings@) =~= text::texts(had) + seq![warning@]);
            assert(text::texts(tally.mounts@) =~= text::texts(start.mounts@) + Seq::empty());
            return (0, 0, children);
        },
    };
    let ghost all = text::texts(names@);
    let mut i: usize = 0;
    assert(text::texts(tally.warnings@) =~= text::texts(start.warnings@) + Seq::empty());
    assert(text::texts(tally.mounts@) =~= text::texts(start.mounts@) + Seq::empty());
    while i < names.len()
        invariant
            i <= names.len(),
            all == text::texts(names@),
            start.top@.len() <= limit,
            ({
                let found = walked_names(
                    path@,
                    all,
                    i as nat,
                    levels as nat,
                    top_dev,
                    host,
                    opt_nat(start.left),
                );
                &&& bytes == found.bytes
                &&& files == found.files
                &&& nodes(children@) == found.children
                &&& start.grew(
                    *tally,
                    Below { visited: found.visited + 1, ..found },
                    limit as nat,
                )
            }),
        decreases names.len() - i,
    {
        assert(all[i as int] == names@[i as int]@);
        let ghost was = *tally;
        let ghost before = walked_names(
            path@,
            all,
            i as nat,
            levels as nat,
            top_dev,
            host,
            opt_nat(start.left),
        );
        if let Some(0) = tally.left {
            i += 1;
            continue;
        }
        if let Some(n) = tally.left {
            tally.left = Some(n - 1);
        }
        let child = paths::join(path, names[i].as_str());
        let name = file_name_lossy(child.as_str());
        match host.find(child.as_str()) {
            None => {},
            Some(entry) => {
                if entry.kind != Kind::Dir {
                    bytes = bytes.saturating_add(entry.size);
                    files = files.saturating_add(1);
                    let file = LargeFile {
                        path: child,
                        bytes: entry.size,
                        mtime: seconds_of(entry),
                    };
                    push_bounded(&mut tally.top, limit, file);
                    proof {
                        let one = seq![file@];
                        assert(before.list.push(file@) =~= before.list + one);
                        lemma_offered_both(
                            large_files(start.top@),
                            limit as nat,
                            before.list,
                            one,
                            1,
                        );
                        assert(offered_all(large_files(was.top@), limit as nat, one, 1) == offered(
                            offered_all(large_files(was.top@), limit as nat, one, 0),
                            limit as nat,
                            one[0],
                        ));
                    }
                } else if !text::same(name.as_str(), ".snapshots") && text::chars_of(
                    child.as_str(),
                ).len() > text::chars_of(path).len() {
                    if crosses_device(entry.dev, top_dev) {
                        tally.mounts.push(child);
                        assert(text::texts(tally.mounts@) =~= text::texts(was.mounts@).push(
                            child@,
                        ));
                        assert(text::texts(tally.mounts@) =~= text::texts(start.mounts@)
                            + before.mounts.push(child@));
                    } else {
                        proof {
                            lemma_room_shrinks(path@, child@, host);
                        }
                        let less: usize = if levels == 0 {
                            0
                        } else {
                            levels - 1
                        };
                        let ghost found = walked(
                            child@,
                            less as nat,
                            top_dev,
                            host,
                            opt_nat(tally.left),
                        );
                        let (b, f, below) = build_below(
                            child.as_str(),
                            less,
                            top_dev,
                            limit,
                            host,
                            tally,
                        );
                        let ghost kids = below@;
                        let truncated = less == 0 && below.len() > 0;
                        let kept: Vec<DirNode> = if less == 0 {
                            Vec::new()
                        } else {
                            below
                        };
                        let one = DirNode {
                            path: child,
                            name,
                            bytes: b,
                            files: f,
                            mtime: seconds_of(entry),
                            children: kept,
                            truncated_depth: truncated,
                        };
                        proof {
                            lemma_node(one);
                            assert(nodes(kids).len() == kids.len());
                            if less == 0 {
                                assert(nodes(kept@) =~= Seq::empty());
                            }
                            assert(node(one) == node_of(
                                child@,
                                name@,
                                seconds(*entry),
                                found,
                                less as nat,
                            ));
                            lemma_offered_both(
                                large_files(start.top@),
                                limit as nat,
                                before.list,
                                found.list,
                                found.list.len() as int,
                            );
                            assert(text::texts(start.warnings@) + before.warnings + found.warnings
                                =~= text::texts(start.warnings@) + (before.warnings
                                + found.warnings));
                            assert(text::texts(start.mounts@) + before.mounts + found.mounts
                                =~= text::texts(start.mounts@) + (before.mounts
                                + found.mounts));
                        }
                        bytes = bytes.saturating_add(b);
                        files = files.saturating_add(f);
                        let ghost had = children@;
                        children.push(one);
                        assert(nodes(children@) =~= nodes(had).push(node(one)));
                    }
                }
            },
        }
        i += 1;
    }
    (bytes, files, children)
}

// ------------------------------------------------------------------------ the scan

/// Whether and when somebody called the scan off.
#[derive(Debug, Clone, Copy, PartialEq, Eq, Structural)]
pub enum Cancel {
    Never,
    Before,
    /// After so many entries were looked at.
    After(u64),
}

/// How many entries may be looked at, if there is an end to it.
pub open spec fn patience(cancel: Cancel) -> Option<nat> {
    match cancel {
        Cancel::Never => None,
        Cancel::Before => Some(0),
        Cancel::After(n) => Some(n as nat),
    }
}

#[derive(Debug)]
pub struct ScanResult {
    pub root: DirNode,
    pub dirs_visited: u64,
    pub complete: bool,
    pub skipped_mounts: Vec<String>,
    pub warnings: Vec<String>,
    pub top_files: Vec<LargeFile>,
}

/// A scan's result as a mathematical value.
pub struct ResultModel {
    pub root: NodeModel,
    pub dirs_visited: u64,
    pub complete: bool,
    pub skipped_mounts: Seq<Seq<char>>,
    pub warnings: Seq<Seq<char>>,
    pub top_files: Seq<FileModel>,
}

impl View for ScanResult {
    type V = ResultModel;

    open spec fn view(&self) -> ResultModel {
        ResultModel {
            root: node(self.root),
            dirs_visited: self.dirs_visited,
            complete: self.complete,
            skipped_mounts: text::texts(self.skipped_mounts@),
            warnings: text::texts(self.warnings@),
            top_files: large_files(self.top_files@),
        }
    }
}

/// A node of which nothing is known.
pub open spec fn blank(path: Seq<char>) -> NodeModel {
    NodeModel {
        path,
        name: last_name(path),
        bytes: 0,
        files: 0,
        mtime: 0,
        children: Seq::empty(),
        truncated_depth: false,
    }
}

fn empty_node(path: &str) -> (r: DirNode)
    ensures
        node(r) == blank(path@),
{
    let r = DirNode {
        path: path.to_owned(),
        name: file_name_lossy(path),
        bytes: 0,
        files: 0,
        mtime: 0,
        children: Vec::new(),
        truncated_depth: false,
    };
    proof {
        lemma_node(r);
        assert(nodes(r.children@) =~= Seq::empty());
    }
    r
}

/// Directories in the order of their names.
pub open spec fn by_name(list: Seq<NodeModel>) -> Seq<NodeModel> {
    order::sorted(list, |n: NodeModel| seq![n.name])
}

impl Keyed for DirNode {
    open spec fn key(&self) -> Seq<Seq<char>> {
        seq![self.name@]
    }

    fn key_list(&self) -> (r: Vec<String>) {
        text::list1(self.name.as_str())
    }
}

fn sort_nodes(v: Vec<DirNode>) -> (r: Vec<DirNode>)
    ensures
        nodes(r@) == by_name(nodes(v@)),
{
    let r = order::sort(v);
    proof {
        let key = |t: DirNode| t.key();
        let model = |t: DirNode| node(t);
        let model_key = |n: NodeModel| seq![n.name];
        assert(nodes(v@) =~= v@.map_values(model));
        order::lemma_sorted_models(v@, nodes(v@), key, model, model_key);
        assert(nodes(r@) =~= r@.map_values(model));
    }
    r
}

/// What a scan of `start` comes to.
pub open spec fn scanned(
    start: Seq<char>,
    max_depth: nat,
    limit: nat,
    host: &Host,
    cancel: Cancel,
) -> ResultModel {
    let nothing_found = ResultModel {
        root: blank(start),
        dirs_visited: 0,
        complete: true,
        skipped_mounts: Seq::empty(),
        warnings: Seq::empty(),
        top_files: Seq::empty(),
    };
    if cancel == Cancel::Before {
        ResultModel { complete: false, ..nothing_found }
    } else {
        match host.found(start) {
            None => ResultModel {
                warnings: seq![start + ": "@ + host.stat_error(start)],
                ..nothing_found
            },
            Some(entry) => if entry.kind != Kind::Dir {
                ResultModel {
                    root: NodeModel {
                        bytes: entry.size,
                        files: 1,
                        mtime: seconds(entry),
                        ..blank(start)
                    },
                    top_files: if limit == 0 {
                        Seq::empty()
                    } else {
                        seq![FileModel { path: start, bytes: entry.size, mtime: seconds(entry) }]
                    },
                    ..nothing_found
                }
            } else {
                let found = walked(start, max_depth, entry.dev, host, patience(cancel));
                ResultModel {
                    root: node_of(
                        start,
                        last_name(start),
                        seconds(entry),
                        Below { children: by_name(found.children), ..found },
                        max_depth,
                    ),
                    dirs_visited: capped(found.visited),
                    complete: found.left != Some(0nat),
                    skipped_mounts: found.mounts,
                    warnings: found.warnings,
                    top_files: offered_all(
                        Seq::empty(),
                        limit,
                        found.list,
                        found.list.len() as int,
                    ),
                }
            },
        }
    }
}

/// Sizes everything below `start`. Links are counted as themselves, what
/// lies on other filesystems is left out, and snapshots are not seen.
pub fn scan(start: &str, options: &ScanOptions, host: &Host, cancel: Cancel) -> (r: ScanResult)
    ensures
        r@ == scanned(
            start@,
            options.max_depth as nat,
            options.top_files_limit as nat,
            host,
            cancel,
        ),
{
    let none: Vec<String> = Vec::new();
    let no_mounts: Vec<String> = Vec::new();
    let no_files: Vec<LargeFile> = Vec::new();
    assert(text::texts(none@) =~= Seq::empty());
    assert(text::texts(no_mounts@) =~= Seq::empty());
    assert(large_files(no_files@) =~= Seq::empty());
    if cancel == Cancel::Before {
        return ScanResult {
            root: empty_node(start),
            dirs_visited: 0,
            complete: false,
            skipped_mounts: no_mounts,
            warnings: none,
            top_files: no_files,
        };
    }
    let entry = match host.find(start) {
        Some(entry) => entry,
        None => {
            let why = host.why_no_stat(start);
            let warning = text::concat3(start, ": ", why.as_str());
            let warnings = text::list1(warning.as_str());
            return ScanResult {
                root: empty_node(start),
                dirs_visited: 0,
                complete: true,
                skipped_mounts: no_mounts,
                warnings,
                top_files: no_files,
            };
        },
    };
    if entry.kind != Kind::Dir {
        let mut root = empty_node(start);
        let ghost before = root;
        root.bytes = entry.size;
        root.files = 1;
        root.mtime = seconds_of(entry);
        proof {
            lemma_node(root);
            lemma_node(before);
        }
        let mut top_files = no_files;
        if options.top_files_limit > 0 {
            top_files.push(
                LargeFile {
                    path: start.to_owned(),
                    bytes: entry.size,
                    mtime: seconds_of(entry),
                },
            );
        }
        assert(large_files(top_files@) =~= (if options.top_files_limit == 0 {
            Seq::empty()
        } else {
            seq![FileModel { path: start@, bytes: entry.size, mtime: seconds(*entry) }]
        }));
        return ScanResult {
            root,
            dirs_visited: 0,
            complete: true,
            skipped_mounts: no_mounts,
            warnings: none,
            top_files,
        };
    }
    let left: Option<u64> = match cancel {
        Cancel::After(n) => Some(n),
        _ => None,
    };
    let mut tally = Tally { visited: 0, warnings: none, mounts: no_mounts, top: no_files, left };
    let ghost found = walked(
        start@,
        options.max_depth as nat,
        entry.dev,
        host,
        patience(cancel),
    );
    let (bytes, files, below) = build_below(
        start,
        options.max_depth,
        entry.dev,
        options.top_files_limit,
        host,
        &mut tally,
    );
    let complete = match tally.left {
        Some(0) => false,
        _ => true,
    };
    let sorted = sort_nodes(below);
    proof {
        order::law_sorting_orders_and_keeps(found.children, |n: NodeModel| seq![n.name]);
        assert(nodes(sorted@).len() == sorted@.len());
    }
    let ghost sorted_nodes = nodes(sorted@);
    let truncated = options.max_depth == 0 && sorted.len() > 0;
    let children: Vec<DirNode> = if options.max_depth == 0 {
        Vec::new()
    } else {
        sorted
    };
    let root = DirNode {
        path: start.to_owned(),
        name: file_name_lossy(start),
        bytes,
        files,
        mtime: seconds_of(entry),
        children,
        truncated_depth: truncated,
    };
    proof {
        lemma_node(root);
        if options.max_depth == 0 {
            assert(nodes(root.children@) =~= Seq::empty());
        }
        assert(text::texts(tally.warnings@) =~= found.warnings);
        assert(text::texts(tally.mounts@) =~= found.mounts);
    }
    ScanResult {
        root,
        dirs_visited: tally.visited,
        complete,
        skipped_mounts: tally.mounts,
        warnings: tally.warnings,
        top_files: tally.top,
    }
}

// ---------------------------------------------------------------------------- laws

/// The bytes of the first `n` files.
pub open spec fn sum(files: Seq<FileModel>, n: int) -> nat
    decreases n,
{
    if n <= 0 {
        0
    } else {
        sum(files, n - 1) + files[n - 1].bytes as nat
    }
}

proof fn lemma_sum_of_both(a: Seq<FileModel>, b: Seq<FileModel>, n: int)
    requires
        0 <= n <= b.len(),
    ensures
        sum(a + b, a.len() + n) == sum(a, a.len() as int) + sum(b, n),
    decreases n,
{
    if n == 0 {
        lemma_sum_of_prefix(a, b, a.len() as int);
    } else {
        lemma_sum_of_both(a, b, n - 1);
        assert((a + b)[a.len() + n - 1] == b[n - 1]);
    }
}

proof fn lemma_sum_of_prefix(a: Seq<FileModel>, b: Seq<FileModel>, n: int)
    requires
        0 <= n <= a.len(),
    ensures
        sum(a + b, n) == sum(a, n),
    decreases n,
{
    if n > 0 {
        lemma_sum_of_prefix(a, b, n - 1);
        assert((a + b)[n - 1] == a[n - 1]);
    }
}

proof fn lemma_totals_of_names(
    dir: Seq<char>,
    names: Seq<Seq<char>>,
    n: nat,
    levels: nat,
    top_dev: u64,
    host: &Host,
    left: Option<nat>,
)
    ensures
        ({
            let found = walked_names(dir, names, n, levels, top_dev, host, left);
            &&& found.bytes == capped(sum(found.list, found.list.len() as int))
            &&& found.files == capped(found.list.len())
        }),
    decreases room(dir, host), 0nat, n,
{
    if n > 0 {
        lemma_totals_of_names(dir, names, (n - 1) as nat, levels, top_dev, host, left);
        let before = walked_names(dir, names, (n - 1) as nat, levels, top_dev, host, left);
        let less = one_fewer(before.left);
        let path = paths::joined(dir, names[n - 1]);
        match host.found(path) {
            None => {},
            Some(entry) => if entry.kind != Kind::Dir {
                let file = FileModel { path, bytes: entry.size, mtime: seconds(entry) };
                assert(before.list.push(file) =~= before.list + seq![file]);
                lemma_sum_of_both(before.list, seq![file], 1);
                assert(sum(seq![file], 1) == sum(seq![file], 0) + file.bytes as nat);
            } else if last_name(path) != ".snapshots"@ && path.len() > dir.len() && entry.dev
                == top_dev {
                lemma_room_shrinks(dir, path, host);
                law_totals_cover_everything(path, one_less(levels), top_dev, host, less);
                let found = walked(path, one_less(levels), top_dev, host, less);
                lemma_sum_of_both(before.list, found.list, found.list.len() as int);
            },
        }
    }
}

/// The totals of a directory are those of all the files that were seen below
/// it, whatever is kept of the tree, also where the walk was called off.
pub proof fn law_totals_cover_everything(
    path: Seq<char>,
    levels: nat,
    top_dev: u64,
    host: &Host,
    left: Option<nat>,
)
    ensures
        ({
            let found = walked(path, levels, top_dev, host, left);
            &&& found.bytes == capped(sum(found.list, found.list.len() as int))
            &&& found.files == capped(found.list.len())
        }),
    decreases room(path, host), 1nat, 0nat,
{
    if let Some(names) = host.listing(path) {
        lemma_totals_of_names(path, names, names.len(), levels, top_dev, host, left);
    }
}

/// Whether two nodes differ at most in what is kept below them.
pub open spec fn same_totals(a: NodeModel, b: NodeModel) -> bool {
    a == (NodeModel { children: a.children, truncated_depth: a.truncated_depth, ..b })
}

/// Whether two walks found the same, but for what is kept below the
/// directories.
pub open spec fn same_finds(a: Below, b: Below) -> bool {
    &&& a == (Below { children: a.children, ..b })
    &&& a.children.len() == b.children.len()
    &&& forall|i: int|
        0 <= i < a.children.len() ==> same_totals(#[trigger] a.children[i], b.children[i])
}

proof fn lemma_depth_of_names(
    dir: Seq<char>,
    names: Seq<Seq<char>>,
    n: nat,
    levels: nat,
    other: nat,
    top_dev: u64,
    host: &Host,
    left: Option<nat>,
)
    ensures
        same_finds(
            walked_names(dir, names, n, levels, top_dev, host, left),
            walked_names(dir, names, n, other, top_dev, host, left),
        ),
    decreases room(dir, host), 0nat, n,
{
    if n > 0 {
        lemma_depth_of_names(
            dir,
            names,
            (n - 1) as nat,
            levels,
            other,
            top_dev,
            host,
            left,
        );
        let so_far = walked_names(dir, names, (n - 1) as nat, levels, top_dev, host, left);
        let less = one_fewer(so_far.left);
        let path = paths::joined(dir, names[n - 1]);
        if let Some(entry) = host.found(path) {
            if so_far.left != Some(0nat) && entry.kind == Kind::Dir && last_name(path)
                != ".snapshots"@ && path.len() > dir.len() && entry.dev == top_dev {
                lemma_room_shrinks(dir, path, host);
                lemma_depth_cuts_only_the_shape(
                    path,
                    one_less(levels),
                    one_less(other),
                    top_dev,
                    host,
                    less,
                );
            }
        }
    }
}

proof fn lemma_depth_cuts_only_the_shape(
    path: Seq<char>,
    levels: nat,
    other: nat,
    top_dev: u64,
    host: &Host,
    left: Option<nat>,
)
    ensures
        same_finds(
            walked(path, levels, top_dev, host, left),
            walked(path, other, top_dev, host, left),
        ),
    decreases room(path, host), 1nat, 0nat,
{
    if let Some(names) = host.listing(path) {
        lemma_depth_of_names(path, names, names.len(), levels, other, top_dev, host, left);
    }
}

/// The depth says only how much of the tree is kept: whatever it is, the
/// totals are the same, and so is all that is told.
pub proof fn law_depth_cuts_only_the_shape(
    start: Seq<char>,
    depth: nat,
    other: nat,
    limit: nat,
    host: &Host,
    cancel: Cancel,
)
    ensures
        ({
            let a = scanned(start, depth, limit, host, cancel);
            let b = scanned(start, other, limit, host, cancel);
            &&& same_totals(a.root, b.root)
            &&& a == (ResultModel { root: a.root, ..b })
        }),
{
    if let Some(entry) = host.found(start) {
        lemma_depth_cuts_only_the_shape(
            start,
            depth,
            other,
            entry.dev,
            host,
            patience(cancel),
        );
    }
}

proof fn lemma_complete_names(
    dir: Seq<char>,
    names: Seq<Seq<char>>,
    n: nat,
    levels: nat,
    top_dev: u64,
    host: &Host,
    left: nat,
)
    requires
        walked_names(dir, names, n, levels, top_dev, host, Some(left)).left != Some(0nat),
    ensures
        ({
            let found = walked_names(dir, names, n, levels, top_dev, host, Some(left));
            &&& found.left is Some
            &&& walked_names(dir, names, n, levels, top_dev, host, None) == Below {
                left: None,
                ..found
            }
        }),
    decreases room(dir, host), 0nat, n,
{
    if n > 0 {
        lemma_complete_names(dir, names, (n - 1) as nat, levels, top_dev, host, left);
        let so_far = walked_names(dir, names, (n - 1) as nat, levels, top_dev, host, Some(left));
        let less = one_fewer(so_far.left);
        let path = paths::joined(dir, names[n - 1]);
        if let Some(entry) = host.found(path) {
            if entry.kind == Kind::Dir && last_name(path) != ".snapshots"@ && path.len()
                > dir.len() && entry.dev == top_dev {
                lemma_room_shrinks(dir, path, host);
                law_a_complete_walk_saw_everything(
                    path,
                    one_less(levels),
                    top_dev,
                    host,
                    less->Some_0,
                );
            }
        }
    }
}

/// A walk that did not come to its end by being called off found what one
/// that nobody calls off finds.
pub proof fn law_a_complete_walk_saw_everything(
    path: Seq<char>,
    levels: nat,
    top_dev: u64,
    host: &Host,
    left: nat,
)
    requires
        walked(path, levels, top_dev, host, Some(left)).left != Some(0nat),
    ensures
        ({
            let found = walked(path, levels, top_dev, host, Some(left));
            &&& found.left is Some
            &&& walked(path, levels, top_dev, host, None) == Below { left: None, ..found }
        }),
    decreases room(path, host), 1nat, 0nat,
{
    if let Some(names) = host.listing(path) {
        lemma_complete_names(path, names, names.len(), levels, top_dev, host, left);
    }
}

proof fn lemma_larger_order(a: FileModel, b: FileModel, c: FileModel)
    ensures
        !larger(b, a) && !larger(c, b) ==> !larger(c, a),
        larger(a, b) ==> !larger(b, a),
{
    let ka = order::path_key(a.path);
    let kb = order::path_key(b.path);
    let kc = order::path_key(c.path);
    order::lemma_list_total(ka, kb);
    order::lemma_list_total(kb, kc);
    order::lemma_list_total(ka, kc);
    if order::list_before(ka, kb) && order::list_before(kb, kc) {
        order::lemma_list_transitive(ka, kb, kc);
    }
    if order::list_before(kc, ka) && order::list_before(ka, kb) {
        order::lemma_list_transitive(kc, ka, kb);
    }
    if order::list_before(kb, kc) && order::list_before(kc, ka) {
        order::lemma_list_transitive(kb, kc, ka);
    }
}

/// Whether a list of files is in order, the largest first.
pub open spec fn ranked(list: Seq<FileModel>) -> bool {
    forall|i: int, j: int|
        0 <= i < j < list.len() ==> !larger(#[trigger] list[j], #[trigger] list[i])
}

proof fn lemma_offered_ranked(list: Seq<FileModel>, limit: nat, file: FileModel)
    requires
        ranked(list),
        list.len() <= limit,
    ensures
        ranked(offered(list, limit, file)),
        offered(list, limit, file).len() <= limit,
{
    let at = rank(list, file, list.len() as int);
    lemma_rank(list, file, list.len() as int);
    let longer = list.insert(at, file);
    assert forall|i: int, j: int| 0 <= i < j < longer.len() implies !larger(
        #[trigger] longer[j],
        #[trigger] longer[i],
    ) by {
        if i < at && j == at {
            if i < at - 1 {
                lemma_larger_order(list[i], list[at - 1], file);
            }
        } else if i == at {
            lemma_larger_order(file, list[j - 1], file);
        } else if j > at && i < at {
            assert(longer[j] == list[j - 1]);
        } else if i > at {
            assert(longer[j] == list[j - 1]);
            assert(longer[i] == list[i - 1]);
        }
    }
}

/// Whether a file is in the list or gave way to larger ones that fill it.
pub open spec fn placed(list: Seq<FileModel>, limit: nat, file: FileModel) -> bool {
    list.contains(file) || (list.len() == limit && forall|i: int|
        0 <= i < list.len() ==> !larger(file, #[trigger] list[i]))
}

proof fn lemma_placed(list: Seq<FileModel>, limit: nat, file: FileModel, other: FileModel)
    requires
        ranked(list),
        list.len() <= limit,
        placed(list, limit, other) || other == file,
    ensures
        placed(offered(list, limit, file), limit, other),
{
    let at = rank(list, file, list.len() as int);
    lemma_rank(list, file, list.len() as int);
    let longer = list.insert(at, file);
    let now = offered(list, limit, file);
    lemma_offered_ranked(list, limit, file);
    if other == file || list.contains(other) {
        let k: int = if other == file {
            at
        } else {
            let k = choose|k: int| 0 <= k < list.len() && list[k] == other;
            if k < at {
                k
            } else {
                k + 1
            }
        };
        assert(longer[k] == other);
        if k < now.len() {
            assert(now[k] == other);
        } else {
            assert(now.len() == limit);
            assert(k == limit);
            assert forall|i: int| 0 <= i < now.len() implies !larger(other, #[trigger] now[i]) by {
                if other == file {
                    assert(at == list.len());
                    if i < at - 1 {
                        lemma_larger_order(list[i], list[at - 1], file);
                    }
                } else {
                    assert(list[list.len() - 1] == other);
                    assert(at < list.len());
                    if i == at {
                        lemma_larger_order(file, other, file);
                    } else if i < at {
                        assert(now[i] == list[i]);
                    } else {
                        assert(now[i] == list[i - 1]);
                    }
                }
            }
        }
    } else {
        assert(now.len() == limit);
        assert forall|i: int| 0 <= i < now.len() implies !larger(other, #[trigger] now[i]) by {
            if i < at {
                assert(now[i] == list[i]);
            } else if i == at {
                assert(list.len() > at);
                assert(!larger(other, list[at]));
                lemma_larger_order(file, list[at], other);
                lemma_larger_order(file, list[at], file);
            } else {
                assert(now[i] == list[i - 1]);
            }
        }
    }
}

/// The list that comes of offering files one by one holds the largest, in
/// order: every file is in it or is not larger than any in the full list.
pub proof fn law_top_files_are_the_largest(files: Seq<FileModel>, limit: nat, n: int, k: int)
    requires
        0 <= k < n <= files.len(),
    ensures
        ranked(offered_all(Seq::empty(), limit, files, n)),
        offered_all(Seq::empty(), limit, files, n).len() <= limit,
        placed(offered_all(Seq::empty(), limit, files, n), limit, files[k]),
        forall|i: int|
            #![trigger offered_all(Seq::empty(), limit, files, n)[i]]
            0 <= i < offered_all(Seq::empty(), limit, files, n).len() ==> files.contains(
                offered_all(Seq::empty(), limit, files, n)[i],
            ),
    decreases n,
{
    assert forall|i: int|
        #![trigger offered_all(Seq::empty(), limit, files, n)[i]]
        0 <= i < offered_all(Seq::empty(), limit, files, n).len() implies files.contains(
        offered_all(Seq::empty(), limit, files, n)[i],
    ) by {
        lemma_top_is_of_files(files, limit, n, i);
    }
    lemma_top_ranked(files, limit, n - 1);
    let before = offered_all(Seq::empty(), limit, files, n - 1);
    lemma_offered_ranked(before, limit, files[n - 1]);
    if k < n - 1 {
        law_top_files_are_the_largest(files, limit, n - 1, k);
    }
    lemma_placed(before, limit, files[n - 1], files[k]);
}

proof fn lemma_top_is_of_files(files: Seq<FileModel>, limit: nat, n: int, i: int)
    requires
        0 <= n <= files.len(),
        0 <= i < offered_all(Seq::empty(), limit, files, n).len(),
    ensures
        files.contains(offered_all(Seq::empty(), limit, files, n)[i]),
    decreases n,
{
    if n > 0 {
        let before = offered_all(Seq::empty(), limit, files, n - 1);
        let at = rank(before, files[n - 1], before.len() as int);
        lemma_rank(before, files[n - 1], before.len() as int);
        if i < at {
            lemma_top_is_of_files(files, limit, n - 1, i);
        } else if i > at {
            lemma_top_is_of_files(files, limit, n - 1, i - 1);
        } else {
            assert(files[n - 1] == offered_all(Seq::empty(), limit, files, n)[i]);
        }
    }
}

proof fn lemma_top_ranked(files: Seq<FileModel>, limit: nat, n: int)
    requires
        0 <= n <= files.len(),
    ensures
        ranked(offered_all(Seq::empty(), limit, files, n)),
        offered_all(Seq::empty(), limit, files, n).len() <= limit,
    decreases n,
{
    if n > 0 {
        lemma_top_ranked(files, limit, n - 1);
        lemma_offered_ranked(
            offered_all(Seq::empty(), limit, files, n - 1),
            limit,
            files[n - 1],
        );
    }
}

// ------------------------------------------------------------ what there is to see

/// Whether directories list names, each once.
pub open spec fn proper(host: &Host) -> bool {
    &&& forall|dir: Seq<char>, i: int|
        host.listing(dir) is Some && 0 <= i < host.listing(dir)->0.len() ==> paths::entry_name(
            #[trigger] host.listing(dir)->0[i],
        )
    &&& forall|dir: Seq<char>, i: int, j: int|
        host.listing(dir) is Some && 0 <= i < j < host.listing(dir)->0.len()
            ==> #[trigger] host.listing(dir)->0[i] != #[trigger] host.listing(dir)->0[j]
}

/// Whether the names lead down from `dir`: each is listed where the ones
/// before it lead, and all but the last are directories on the device `dev`
/// that are not snapshots.
pub open spec fn leads(dir: Seq<char>, way: Seq<Seq<char>>, dev: u64, host: &Host) -> bool
    decreases way.len(),
{
    &&& way.len() > 0
    &&& host.listing(dir) is Some
    &&& host.listing(dir)->0.contains(way[0])
    &&& way.len() > 1 ==> {
        let path = paths::below(dir, way[0]);
        &&& way[0] != ".snapshots"@
        &&& host.found(path) is Some
        &&& host.found(path)->0.kind == Kind::Dir
        &&& host.found(path)->0.dev == dev
        &&& leads(path, way.skip(1), dev, host)
    }
}

/// Whether the file is what the names lead to from `dir`.
pub open spec fn file_at(
    f: FileModel,
    dir: Seq<char>,
    way: Seq<Seq<char>>,
    dev: u64,
    host: &Host,
) -> bool {
    &&& leads(dir, way, dev, host)
    &&& f.path == paths::down(dir, way)
    &&& host.found(f.path) is Some
    &&& host.found(f.path)->0.kind != Kind::Dir
    &&& f.bytes == host.found(f.path)->0.size
    &&& match host.found(f.path)->0.modified {
        Some(nanos) => f.mtime == nanos as int / 1_000_000_000,
        None => f.mtime == 0,
    }
}

/// Whether the file lies below `dir` on the device `dev`, outside snapshots.
pub open spec fn lies_below(f: FileModel, dir: Seq<char>, dev: u64, host: &Host) -> bool {
    exists|way: Seq<Seq<char>>| file_at(f, dir, way, dev, host)
}

/// The names of a path tell the way to it.
proof fn lemma_names_of_way(dir: Seq<char>, way: Seq<Seq<char>>, dev: u64, host: &Host)
    requires
        proper(host),
        dir.len() > 0,
        leads(dir, way, dev, host),
    ensures
        paths::names(paths::down(dir, way)) == paths::base(dir) + way,
    decreases way.len(),
{
    let names = host.listing(dir)->0;
    let j = choose|j: int| 0 <= j < names.len() && names[j] == way[0];
    assert(paths::entry_name(host.listing(dir)->0[j]));
    paths::lemma_below(dir, way[0]);
    let path = paths::below(dir, way[0]);
    if way.len() > 1 {
        lemma_names_of_way(path, way.skip(1), dev, host);
        assert(paths::base(path) + way.skip(1) =~= paths::base(dir) + way);
    } else {
        assert(way.skip(1) =~= Seq::empty());
        assert(paths::down(path, way.skip(1)) == path);
        assert(paths::base(dir).push(way[0]) =~= paths::base(dir) + way);
    }
}

/// A walk that nobody calls off goes on to the end.
proof fn lemma_no_end(path: Seq<char>, levels: nat, dev: u64, host: &Host)
    ensures
        walked(path, levels, dev, host, None).left is None,
    decreases room(path, host), 1nat, 0nat,
{
    if let Some(names) = host.listing(path) {
        lemma_no_end_of_names(path, names, names.len(), levels, dev, host);
    }
}

proof fn lemma_no_end_of_names(
    dir: Seq<char>,
    names: Seq<Seq<char>>,
    n: nat,
    levels: nat,
    dev: u64,
    host: &Host,
)
    ensures
        walked_names(dir, names, n, levels, dev, host, None).left is None,
    decreases room(dir, host), 0nat, n,
{
    if n > 0 {
        lemma_no_end_of_names(dir, names, (n - 1) as nat, levels, dev, host);
        let path = paths::joined(dir, names[n - 1]);
        if let Some(entry) = host.found(path) {
            if path.len() > dir.len() {
                lemma_room_shrinks(dir, path, host);
                lemma_no_end(path, one_less(levels), dev, host);
            }
        }
    }
}

/// What a walk of the first `n` names finds, it finds at one of them.
proof fn lemma_seen_at_names(
    dir: Seq<char>,
    names: Seq<Seq<char>>,
    n: nat,
    levels: nat,
    dev: u64,
    host: &Host,
    f: FileModel,
    way: Seq<Seq<char>>,
    j: int,
)
    requires
        proper(host),
        dir.len() > 0,
        host.listing(dir) == Some(names),
        0 <= j < n <= names.len(),
        names[j] == way[0],
        file_at(f, dir, way, dev, host),
    ensures
        walked_names(dir, names, n, levels, dev, host, None).list.contains(f),
    decreases room(dir, host), 0nat, n,
{
    let before = walked_names(dir, names, (n - 1) as nat, levels, dev, host, None).list;
    let now = walked_names(dir, names, n, levels, dev, host, None).list;
    lemma_no_end_of_names(dir, names, (n - 1) as nat, levels, dev, host);
    assert(paths::entry_name(host.listing(dir)->0[n - 1]));
    paths::lemma_below(dir, names[n - 1]);
    let path = paths::below(dir, names[n - 1]);
    if j < n - 1 {
        lemma_seen_at_names(dir, names, (n - 1) as nat, levels, dev, host, f, way, j);
        let k = choose|k: int| 0 <= k < before.len() && before[k] == f;
        assert(now[k] == f);
    } else if way.len() == 1 {
        assert(way.skip(1) =~= Seq::empty());
        assert(paths::down(path, way.skip(1)) == path);
        assert(now == before.push(f));
        assert(now[before.len() as int] == f);
    } else {
        lemma_room_shrinks(dir, path, host);
        assert(file_at(f, path, way.skip(1), dev, host));
        lemma_seen(path, one_less(levels), dev, host, f, way.skip(1));
        let more = walked(path, one_less(levels), dev, host, None).list;
        let k = choose|k: int| 0 <= k < more.len() && more[k] == f;
        assert(now == before + more);
        assert(now[before.len() + k] == f);
    }
}

proof fn lemma_seen(
    dir: Seq<char>,
    levels: nat,
    dev: u64,
    host: &Host,
    f: FileModel,
    way: Seq<Seq<char>>,
)
    requires
        proper(host),
        dir.len() > 0,
        file_at(f, dir, way, dev, host),
    ensures
        walked(dir, levels, dev, host, None).list.contains(f),
    decreases room(dir, host), 1nat, 0nat,
{
    let names = host.listing(dir)->0;
    let j = choose|j: int| 0 <= j < names.len() && names[j] == way[0];
    lemma_seen_at_names(dir, names, names.len(), levels, dev, host, f, way, j);
}

/// What a walk finds is there, at one of the names.
proof fn lemma_only_seen_at_names(
    dir: Seq<char>,
    names: Seq<Seq<char>>,
    n: nat,
    levels: nat,
    dev: u64,
    host: &Host,
    f: FileModel,
) -> (way: Seq<Seq<char>>)
    requires
        proper(host),
        dir.len() > 0,
        host.listing(dir) == Some(names),
        n <= names.len(),
        walked_names(dir, names, n, levels, dev, host, None).list.contains(f),
    ensures
        file_at(f, dir, way, dev, host),
        names.take(n as int).contains(way[0]),
    decreases room(dir, host), 0nat, n,
{
    if n == 0 {
        arbitrary()
    } else {
        let so_far = walked_names(dir, names, (n - 1) as nat, levels, dev, host, None);
        let before = so_far.list;
        let now = walked_names(dir, names, n, levels, dev, host, None).list;
        lemma_no_end_of_names(dir, names, (n - 1) as nat, levels, dev, host);
        assert(paths::entry_name(host.listing(dir)->0[n - 1]));
        let name = names[n - 1];
        paths::lemma_below(dir, name);
        let path = paths::below(dir, name);
        assert(names.take(n as int)[n - 1] == name);
        assert(names.contains(name));
        if before.contains(f) {
            let way = lemma_only_seen_at_names(
                dir,
                names,
                (n - 1) as nat,
                levels,
                dev,
                host,
                f,
            );
            let some = names.take(n - 1);
            let k = choose|k: int| 0 <= k < some.len() && some[k] == way[0];
            assert(names.take(n as int)[k] == way[0]);
            way
        } else {
            let entry = host.found(path)->0;
            if entry.kind != Kind::Dir {
                let way = seq![name];
                assert(way.skip(1) =~= Seq::empty());
                assert(paths::down(path, way.skip(1)) == path);
                assert(paths::down(dir, way) == path);
                assert(f.path == path);
                assert(leads(dir, way, dev, host));
                way
            } else {
                lemma_room_shrinks(dir, path, host);
                let more = walked(path, one_less(levels), dev, host, None).list;
                assert(more.contains(f)) by {
                    assert(now == before + more);
                    let k = choose|k: int| 0 <= k < now.len() && now[k] == f;
                    if k < before.len() {
                        assert(before[k] == f);
                    } else {
                        assert(more[k - before.len()] == f);
                    }
                }
                let rest = lemma_only_seen(path, one_less(levels), dev, host, f);
                let way = seq![name] + rest;
                assert(way.skip(1) =~= rest);
                assert(paths::down(dir, way) == paths::down(path, rest));
                assert(leads(dir, way, dev, host));
                way
            }
        }
    }
}

proof fn lemma_only_seen(
    dir: Seq<char>,
    levels: nat,
    dev: u64,
    host: &Host,
    f: FileModel,
) -> (way: Seq<Seq<char>>)
    requires
        proper(host),
        dir.len() > 0,
        walked(dir, levels, dev, host, None).list.contains(f),
    ensures
        file_at(f, dir, way, dev, host),
    decreases room(dir, host), 1nat, 0nat,
{
    let names = host.listing(dir)->0;
    lemma_only_seen_at_names(dir, names, names.len(), levels, dev, host, f)
}

proof fn lemma_seen_once_at_names(
    dir: Seq<char>,
    names: Seq<Seq<char>>,
    n: nat,
    levels: nat,
    dev: u64,
    host: &Host,
)
    requires
        proper(host),
        dir.len() > 0,
        host.listing(dir) == Some(names),
        n <= names.len(),
    ensures
        walked_names(dir, names, n, levels, dev, host, None).list.no_duplicates(),
    decreases room(dir, host), 0nat, n,
{
    if n > 0 {
        let before = walked_names(dir, names, (n - 1) as nat, levels, dev, host, None).list;
        let now = walked_names(dir, names, n, levels, dev, host, None).list;
        lemma_seen_once_at_names(dir, names, (n - 1) as nat, levels, dev, host);
        lemma_no_end_of_names(dir, names, (n - 1) as nat, levels, dev, host);
        assert(paths::entry_name(host.listing(dir)->0[n - 1]));
        let name = names[n - 1];
        paths::lemma_below(dir, name);
        let path = paths::below(dir, name);
        let more = now.skip(before.len() as int);
        assert(now =~= before + more);
        assert(more.no_duplicates()) by {
            if let Some(entry) = host.found(path) {
                if entry.kind == Kind::Dir {
                    lemma_room_shrinks(dir, path, host);
                    lemma_seen_once(path, one_less(levels), dev, host);
                    let found = walked(path, one_less(levels), dev, host, None).list;
                    if name != ".snapshots"@ && entry.dev == dev {
                        assert(more =~= found);
                    }
                }
            }
        }
        assert forall|i: int, k: int| 0 <= i < before.len() && 0 <= k < more.len() implies before[i]
            != more[k] by {
            if before[i] == more[k] {
                let f = before[i];
                assert(before.contains(f));
                let a = lemma_only_seen_at_names(
                    dir,
                    names,
                    (n - 1) as nat,
                    levels,
                    dev,
                    host,
                    f,
                );
                let b = lemma_way_of_last(dir, names, n, levels, dev, host, f, more, before);
                lemma_names_of_way(dir, a, dev, host);
                lemma_names_of_way(dir, b, dev, host);
                assert(a =~= (paths::base(dir) + a).skip(paths::base(dir).len() as int));
                assert(b =~= (paths::base(dir) + b).skip(paths::base(dir).len() as int));
                let some = names.take(n - 1);
                let x = choose|x: int| 0 <= x < some.len() && some[x] == a[0];
                assert(host.listing(dir)->0[x] == host.listing(dir)->0[n - 1]);
            }
        }
        assert(now.no_duplicates()) by {
            assert forall|i: int, k: int| 0 <= i < now.len() && 0 <= k < now.len() && i != k implies now[i]
                != now[k] by {
                if i < before.len() && k < before.len() {
                    assert(before[i] != before[k]);
                } else if i >= before.len() && k >= before.len() {
                    assert(more[i - before.len()] != more[k - before.len()]);
                } else if i < before.len() {
                    assert(before[i] != more[k - before.len()]);
                } else {
                    assert(before[k] != more[i - before.len()]);
                }
            }
        }
    }
}

/// The way to what the last of `n` names adds leads by that name.
proof fn lemma_way_of_last(
    dir: Seq<char>,
    names: Seq<Seq<char>>,
    n: nat,
    levels: nat,
    dev: u64,
    host: &Host,
    f: FileModel,
    more: Seq<FileModel>,
    before: Seq<FileModel>,
) -> (way: Seq<Seq<char>>)
    requires
        proper(host),
        dir.len() > 0,
        host.listing(dir) == Some(names),
        0 < n <= names.len(),
        before == walked_names(dir, names, (n - 1) as nat, levels, dev, host, None).list,
        walked_names(dir, names, n, levels, dev, host, None).list == before + more,
        more.contains(f),
    ensures
        file_at(f, dir, way, dev, host),
        way[0] == names[n - 1],
{
    lemma_no_end_of_names(dir, names, (n - 1) as nat, levels, dev, host);
    assert(paths::entry_name(host.listing(dir)->0[n - 1]));
    let name = names[n - 1];
    paths::lemma_below(dir, name);
    let path = paths::below(dir, name);
    assert(names.contains(name));
    let now = before + more;
    let entry = host.found(path)->0;
    assert(now.len() == before.len() + more.len());
    assert(more.len() > 0);
    assert(host.found(path) is Some);
    if entry.kind != Kind::Dir {
        let way = seq![name];
        assert(way.skip(1) =~= Seq::empty());
        assert(paths::down(path, way.skip(1)) == path);
        assert(paths::down(dir, way) == path);
        let one = FileModel { path, bytes: entry.size, mtime: seconds(entry) };
        assert(now == before.push(one));
        let k = choose|k: int| 0 <= k < more.len() && more[k] == f;
        assert(now.len() == before.len() + 1);
        assert(k == 0);
        assert(now[before.len() as int] == more[0]);
        assert(now[before.len() as int] == one);
        assert(f == one);
        assert(leads(dir, way, dev, host));
        way
    } else {
        lemma_room_shrinks(dir, path, host);
        let found = walked(path, one_less(levels), dev, host, None).list;
        let k = choose|k: int| 0 <= k < more.len() && more[k] == f;
        assert(now[before.len() + k] == f);
        assert(now == before + found);
        assert(found.len() == more.len());
        assert(found[k] == f) by {
            assert((before + found)[before.len() + k] == found[k]);
        }
        let rest = lemma_only_seen(path, one_less(levels), dev, host, f);
        let way = seq![name] + rest;
        assert(way.skip(1) =~= rest);
        assert(paths::down(dir, way) == paths::down(path, rest));
        assert(leads(dir, way, dev, host));
        way
    }
}

proof fn lemma_seen_once(dir: Seq<char>, levels: nat, dev: u64, host: &Host)
    requires
        proper(host),
        dir.len() > 0,
    ensures
        walked(dir, levels, dev, host, None).list.no_duplicates(),
    decreases room(dir, host), 1nat, 0nat,
{
    if let Some(names) = host.listing(dir) {
        lemma_seen_once_at_names(dir, names, names.len(), levels, dev, host);
    }
}

/// Two lists of the same files, each once, come to the same.
proof fn lemma_same_sum(a: Seq<FileModel>, b: Seq<FileModel>)
    requires
        a.no_duplicates(),
        b.no_duplicates(),
        forall|f: FileModel| a.contains(f) <==> b.contains(f),
    ensures
        a.len() == b.len(),
        sum(a, a.len() as int) == sum(b, b.len() as int),
    decreases a.len(),
{
    if a.len() == 0 {
        if b.len() > 0 {
            assert(b.contains(b[0]));
            assert(a.contains(b[0]));
        }
    } else {
        let f = a.last();
        assert(a[a.len() - 1] == f);
        assert(a.contains(f));
        let i = choose|i: int| 0 <= i < b.len() && b[i] == f;
        let c = a.drop_last();
        let x = b.take(i);
        let y = b.skip(i + 1);
        let d = x + y;
        assert(b =~= x + (seq![f] + y));
        assert forall|g: FileModel| c.contains(g) <==> d.contains(g) by {
            if c.contains(g) {
                let k = choose|k: int| 0 <= k < c.len() && c[k] == g;
                assert(a[k] == g);
                assert(g != f);
                assert(b.contains(g));
                let m = choose|m: int| 0 <= m < b.len() && b[m] == g;
                if m < i {
                    assert(d[m] == g);
                } else {
                    assert(d[m - 1] == g);
                }
            }
            if d.contains(g) {
                let k = choose|k: int| 0 <= k < d.len() && d[k] == g;
                let m = if k < i {
                    k
                } else {
                    k + 1
                };
                assert(b[m] == g);
                assert(b.contains(g));
                assert(b[m] != b[i]);
                let q = choose|q: int| 0 <= q < a.len() && a[q] == g;
                assert(c[q] == g);
            }
        }
        assert(d.no_duplicates()) by {
            assert forall|p: int, q: int| 0 <= p < d.len() && 0 <= q < d.len() && p != q implies d[p]
                != d[q] by {
                let m = if p < i {
                    p
                } else {
                    p + 1
                };
                let o = if q < i {
                    q
                } else {
                    q + 1
                };
                assert(d[p] == b[m] && d[q] == b[o]);
            }
        }
        lemma_same_sum(c, d);
        lemma_sum_of_both(x, seq![f] + y, (seq![f] + y).len() as int);
        lemma_sum_of_both(seq![f], y, y.len() as int);
        lemma_sum_of_both(x, y, y.len() as int);
        reveal_with_fuel(sum, 2);
        lemma_sum_of_prefix(c, seq![f], c.len() as int);
        assert(a =~= c + seq![f]);
    }
}

proof fn lemma_offered_count(files: Seq<FileModel>, limit: nat, n: int)
    requires
        0 <= n <= files.len(),
    ensures
        offered_all(Seq::empty(), limit, files, n).len() == if n < limit {
            n
        } else {
            limit as int
        },
    decreases n,
{
    if n > 0 {
        lemma_offered_count(files, limit, n - 1);
        let before = offered_all(Seq::empty(), limit, files, n - 1);
        lemma_rank(before, files[n - 1], before.len() as int);
    }
}

/// A scan that nobody calls off counts every file below the directory on its
/// filesystem, outside snapshots, and nothing else, whatever the names; and
/// of these files it tells the largest.
///
/// `files` are all the files there are to see, each once, in any order.
pub proof fn law_a_scan_counts_every_file(
    start: Seq<char>,
    depth: nat,
    limit: nat,
    host: &Host,
    files: Seq<FileModel>,
)
    requires
        proper(host),
        start.len() > 0,
        host.found(start) is Some,
        host.found(start)->0.kind == Kind::Dir,
        files.no_duplicates(),
        forall|f: FileModel| #[trigger]
            files.contains(f) <==> lies_below(f, start, host.found(start)->0.dev, host),
    ensures
        ({
            let r = scanned(start, depth, limit, host, Cancel::Never);
            let top = r.top_files;
            &&& r.complete
            &&& r.root.path == start
            &&& r.root.files == capped(files.len())
            &&& r.root.bytes == capped(sum(files, files.len() as int))
            &&& top.len() == if files.len() < limit {
                files.len()
            } else {
                limit
            }
            &&& forall|i: int| 0 <= i < top.len() ==> files.contains(#[trigger] top[i])
            &&& forall|i: int, j: int|
                0 <= i < j < top.len() ==> (#[trigger] top[i]).bytes >= (#[trigger] top[j]).bytes
            &&& forall|f: FileModel, i: int|
                #![trigger files.contains(f), top[i]]
                files.contains(f) && !top.contains(f) && 0 <= i < top.len() ==> top[i].bytes
                    >= f.bytes
        }),
{
    let dev = host.found(start)->0.dev;
    let found = walked(start, depth, dev, host, None);
    let list = found.list;
    let r = scanned(start, depth, limit, host, Cancel::Never);
    lemma_no_end(start, depth, dev, host);
    lemma_seen_once(start, depth, dev, host);
    assert forall|f: FileModel| list.contains(f) <==> files.contains(f) by {
        if list.contains(f) {
            let way = lemma_only_seen(start, depth, dev, host, f);
            assert(lies_below(f, start, dev, host));
            assert(files.contains(f));
        }
        if files.contains(f) {
            let way = choose|way: Seq<Seq<char>>| file_at(f, start, way, dev, host);
            lemma_seen(start, depth, dev, host, f, way);
        }
    }
    lemma_same_sum(list, files);
    law_totals_cover_everything(start, depth, dev, host, None);
    lemma_offered_count(list, limit, list.len() as int);
    let top = r.top_files;
    if list.len() > 0 {
        law_top_files_are_the_largest(list, limit, list.len() as int, 0);
    }
    assert forall|i: int| 0 <= i < top.len() implies files.contains(#[trigger] top[i]) by {
        lemma_top_is_of_files(list, limit, list.len() as int, i);
    }
    assert forall|i: int, j: int| 0 <= i < j < top.len() implies (#[trigger] top[i]).bytes >= (
    #[trigger] top[j]).bytes by {
        assert(!larger(top[j], top[i]));
    }
    assert forall|f: FileModel, i: int|
        #![trigger files.contains(f), top[i]]
        files.contains(f) && !top.contains(f) && 0 <= i < top.len() implies top[i].bytes
        >= f.bytes by {
        let k = choose|k: int| 0 <= k < list.len() && list[k] == f;
        law_top_files_are_the_largest(list, limit, list.len() as int, k);
        assert(placed(top, limit, f));
        assert(!larger(f, top[i]));
    }
}

/// Whether the names lead to a directory that is not a snapshot.
pub open spec fn dir_at(dir: Seq<char>, way: Seq<Seq<char>>, dev: u64, host: &Host) -> bool {
    &&& leads(dir, way, dev, host)
    &&& way.last() != ".snapshots"@
    &&& host.found(paths::down(dir, way)) is Some
    &&& host.found(paths::down(dir, way))->0.kind == Kind::Dir
}

proof fn lemma_told_at_names(
    dir: Seq<char>,
    names: Seq<Seq<char>>,
    n: nat,
    levels: nat,
    dev: u64,
    host: &Host,
    way: Seq<Seq<char>>,
    j: int,
)
    requires
        proper(host),
        dir.len() > 0,
        host.listing(dir) == Some(names),
        0 <= j < n <= names.len(),
        names[j] == way[0],
        dir_at(dir, way, dev, host),
    ensures
        ({
            let path = paths::down(dir, way);
            let found = walked_names(dir, names, n, levels, dev, host, None);
            &&& host.found(path)->0.dev != dev ==> found.mounts.contains(path)
            &&& host.found(path)->0.dev == dev && host.listing(path) is None
                ==> found.warnings.contains(path + ": "@ + host.stat_error(path))
        }),
    decreases room(dir, host), 0nat, n,
{
    let goal = paths::down(dir, way);
    let told = goal + ": "@ + host.stat_error(goal);
    let before = walked_names(dir, names, (n - 1) as nat, levels, dev, host, None);
    let now = walked_names(dir, names, n, levels, dev, host, None);
    lemma_no_end_of_names(dir, names, (n - 1) as nat, levels, dev, host);
    assert(paths::entry_name(host.listing(dir)->0[n - 1]));
    paths::lemma_below(dir, names[n - 1]);
    let path = paths::below(dir, names[n - 1]);
    let more = walked(path, one_less(levels), dev, host, None);
    if j < n - 1 {
        lemma_told_at_names(dir, names, (n - 1) as nat, levels, dev, host, way, j);
        if before.mounts.contains(goal) {
            let k = choose|k: int| 0 <= k < before.mounts.len() && before.mounts[k] == goal;
            assert(now.mounts[k] == goal);
        }
        if before.warnings.contains(told) {
            let k = choose|k: int| 0 <= k < before.warnings.len() && before.warnings[k] == told;
            assert(now.warnings[k] == told);
        }
    } else {
        if way.len() == 1 {
            assert(way.skip(1) =~= Seq::empty());
            assert(paths::down(path, way.skip(1)) == path);
            assert(way.last() == way[0]);
            if host.found(path)->0.dev != dev {
                assert(now.mounts[before.mounts.len() as int] == goal);
            } else if host.listing(path) is None {
                assert(more.warnings[0] == told);
            }
        } else {
            assert(way.skip(1).last() == way.last());
            lemma_room_shrinks(dir, path, host);
            lemma_told(path, one_less(levels), dev, host, way.skip(1));
        }
        if host.found(goal)->0.dev != dev && way.len() > 1 {
            let k = choose|k: int| 0 <= k < more.mounts.len() && more.mounts[k] == goal;
            assert(now.mounts[before.mounts.len() + k] == goal);
        }
        if host.found(goal)->0.dev == dev && host.listing(goal) is None {
            assert(more.warnings.contains(told));
            let k = choose|k: int| 0 <= k < more.warnings.len() && more.warnings[k] == told;
            assert(now.warnings[before.warnings.len() + k] == told);
        }
    }
}

proof fn lemma_told(dir: Seq<char>, levels: nat, dev: u64, host: &Host, way: Seq<Seq<char>>)
    requires
        proper(host),
        dir.len() > 0,
        dir_at(dir, way, dev, host),
    ensures
        ({
            let path = paths::down(dir, way);
            let found = walked(dir, levels, dev, host, None);
            &&& host.found(path)->0.dev != dev ==> found.mounts.contains(path)
            &&& host.found(path)->0.dev == dev && host.listing(path) is None
                ==> found.warnings.contains(path + ": "@ + host.stat_error(path))
        }),
    decreases room(dir, host), 1nat, 0nat,
{
    let names = host.listing(dir)->0;
    let j = choose|j: int| 0 <= j < names.len() && names[j] == way[0];
    lemma_told_at_names(dir, names, names.len(), levels, dev, host, way, j);
}

/// A scan tells of each directory below that another filesystem is mounted
/// on, and warns of each that cannot be listed.
pub proof fn law_what_is_left_out_is_told(
    start: Seq<char>,
    depth: nat,
    limit: nat,
    host: &Host,
    way: Seq<Seq<char>>,
)
    requires
        proper(host),
        start.len() > 0,
        host.found(start) is Some,
        host.found(start)->0.kind == Kind::Dir,
        dir_at(start, way, host.found(start)->0.dev, host),
    ensures
        ({
            let r = scanned(start, depth, limit, host, Cancel::Never);
            let path = paths::down(start, way);
            &&& host.found(path)->0.dev != host.found(start)->0.dev ==> r.skipped_mounts.contains(
                path,
            )
            &&& host.found(path)->0.dev == host.found(start)->0.dev && host.listing(path) is None
                ==> r.warnings.contains(path + ": "@ + host.stat_error(path))
        }),
{
    lemma_told(start, depth, host.found(start)->0.dev, host, way);
}

/// Whether the name is that of a directory in `dir` to go down into.
pub open spec fn goes_into(dir: Seq<char>, name: Seq<char>, dev: u64, host: &Host) -> bool {
    &&& host.listing(dir) is Some
    &&& host.listing(dir)->0.contains(name)
    &&& name != ".snapshots"@
    &&& host.found(paths::below(dir, name)) is Some
    &&& host.found(paths::below(dir, name))->0.kind == Kind::Dir
    &&& host.found(paths::below(dir, name))->0.dev == dev
}

/// Whether the node is that of the directory `name` in `dir`, with the totals
/// of a scan of its own.
pub open spec fn node_at(
    c: NodeModel,
    dir: Seq<char>,
    name: Seq<char>,
    depth: nat,
    host: &Host,
) -> bool {
    let own = scanned(paths::below(dir, name), depth, 0, host, Cancel::Never).root;
    &&& c.path == paths::below(dir, name)
    &&& c.name == name
    &&& c.bytes == own.bytes
    &&& c.files == own.files
    &&& c.mtime == own.mtime
    &&& c.truncated_depth == own.truncated_depth
    &&& depth == 0 ==> c.children.len() == 0
}

proof fn lemma_children_of_names(
    dir: Seq<char>,
    names: Seq<Seq<char>>,
    n: nat,
    depth: nat,
    dev: u64,
    host: &Host,
)
    requires
        proper(host),
        dir.len() > 0,
        host.listing(dir) == Some(names),
        n <= names.len(),
    ensures
        ({
            let list = walked_names(dir, names, n, depth + 1, dev, host, None).children;
            &&& forall|j: int|
                0 <= j < n && goes_into(dir, #[trigger] names[j], dev, host) ==> exists|k: int|
                    0 <= k < list.len() && node_at(#[trigger] list[k], dir, names[j], depth, host)
            &&& forall|k: int|
                0 <= k < list.len() ==> exists|j: int|
                    0 <= j < n && goes_into(dir, #[trigger] names[j], dev, host) && node_at(
                        #[trigger] list[k],
                        dir,
                        names[j],
                        depth,
                        host,
                    )
        }),
    decreases n,
{
    if n > 0 {
        lemma_children_of_names(dir, names, (n - 1) as nat, depth, dev, host);
        let before = walked_names(dir, names, (n - 1) as nat, depth + 1, dev, host, None).children;
        let list = walked_names(dir, names, n, depth + 1, dev, host, None).children;
        lemma_no_end_of_names(dir, names, (n - 1) as nat, depth + 1, dev, host);
        assert(paths::entry_name(host.listing(dir)->0[n - 1]));
        let name = names[n - 1];
        paths::lemma_below(dir, name);
        let path = paths::below(dir, name);
        assert(names.contains(name));
        let there = goes_into(dir, name, dev, host);
        if there {
            let c = list[before.len() as int];
            lemma_room_shrinks(dir, path, host);
            assert(list == before.push(c));
            let found = walked(path, depth, dev, host, None);
            order::law_sorting_orders_and_keeps(found.children, |n: NodeModel| seq![n.name]);
            assert(node_at(c, dir, name, depth, host));
        } else {
            assert(list == before);
        }
        assert forall|j: int|
            0 <= j < n && goes_into(dir, #[trigger] names[j], dev, host) implies exists|k: int|
                0 <= k < list.len() && node_at(#[trigger] list[k], dir, names[j], depth, host) by {
            if j < n - 1 {
                let k = choose|k: int|
                    0 <= k < before.len() && node_at(
                        #[trigger] before[k],
                        dir,
                        names[j],
                        depth,
                        host,
                    );
                assert(node_at(list[k], dir, names[j], depth, host));
            } else {
                assert(node_at(list[before.len() as int], dir, names[j], depth, host));
            }
        }
        assert forall|k: int| 0 <= k < list.len() implies exists|j: int|
                0 <= j < n && goes_into(dir, #[trigger] names[j], dev, host) && node_at(
                    #[trigger] list[k],
                    dir,
                    names[j],
                    depth,
                    host,
                ) by {
            if k < before.len() {
                assert(before[k] == list[k]);
                let j = choose|j: int|
                    0 <= j < n - 1 && goes_into(dir, #[trigger] names[j], dev, host) && node_at(
                        before[k],
                        dir,
                        names[j],
                        depth,
                        host,
                    );
                assert(goes_into(dir, names[j], dev, host));
            } else {
                assert(goes_into(dir, names[n - 1], dev, host));
            }
        }
    }
}

/// The tree of a scan has a node for each directory right below that is on
/// the same filesystem and no snapshot, and no other; each with the path,
/// the name and the totals of that directory, as a scan of it alone gives
/// them. The nodes come by name. Where no level is kept there are none, and
/// the cut is told where there would have been any.
pub proof fn law_each_directory_has_its_node(
    start: Seq<char>,
    depth: nat,
    limit: nat,
    host: &Host,
)
    requires
        proper(host),
        start.len() > 0,
        host.found(start) is Some,
        host.found(start)->0.kind == Kind::Dir,
    ensures
        ({
            let root = scanned(start, depth + 1, limit, host, Cancel::Never).root;
            let flat = scanned(start, 0, limit, host, Cancel::Never).root;
            let list = root.children;
            let dev = host.found(start)->0.dev;
            &&& forall|name: Seq<char>| #[trigger]
                goes_into(start, name, dev, host) ==> exists|k: int|
                    0 <= k < list.len() && node_at(#[trigger] list[k], start, name, depth, host)
            &&& forall|k: int|
                #![trigger list[k]]
                0 <= k < list.len() ==> exists|name: Seq<char>|
                    goes_into(start, name, dev, host) && node_at(list[k], start, name, depth, host)
            &&& forall|i: int, j: int|
                0 <= i < j < list.len() ==> !order::before(
                    (#[trigger] list[j]).name,
                    (#[trigger] list[i]).name,
                )
            &&& !root.truncated_depth
            &&& flat.children.len() == 0
            &&& flat.truncated_depth <==> exists|name: Seq<char>|
                goes_into(start, name, dev, host)
        }),
{
    let key = |n: NodeModel| seq![n.name];
    let dev = host.found(start)->0.dev;
    let held = walked(start, depth + 1, dev, host, None).children;
    let flat = walked(start, 0, dev, host, None).children;
    order::law_sorting_orders_and_keeps(held, key);
    order::law_sorting_orders_and_keeps(flat, key);
    lemma_nodes_of_held(start, depth, dev, host);
    lemma_nodes_come_by_name(held);
    if let Some(names) = host.listing(start) {
        lemma_same_count_of_names(start, names, names.len(), depth, dev, host);
    }
    assert(flat.len() == held.len());
    let list = by_name(held);
    if held.len() > 0 {
        let name = choose|name: Seq<char>|
            goes_into(start, name, dev, host) && node_at(list[0], start, name, depth, host);
        assert(goes_into(start, name, dev, host));
    }
    let root = scanned(start, depth + 1, limit, host, Cancel::Never).root;
    let cut = scanned(start, 0, limit, host, Cancel::Never).root;
    assert(root.children == list);
    assert(!root.truncated_depth);
    assert(cut.children.len() == 0);
    assert(cut.truncated_depth <==> by_name(flat).len() > 0);
    assert(list.len() > 0 <==> exists|name: Seq<char>| goes_into(start, name, dev, host));
}

proof fn lemma_nodes_come_by_name(held: Seq<NodeModel>)
    ensures
        forall|i: int, j: int|
            0 <= i < j < by_name(held).len() ==> !order::before(
                (#[trigger] by_name(held)[j]).name,
                (#[trigger] by_name(held)[i]).name,
            ),
{
    let key = |n: NodeModel| seq![n.name];
    let list = by_name(held);
    order::law_sorting_orders_and_keeps(held, key);
    assert forall|i: int, j: int| 0 <= i < j < list.len() implies !order::before(
        (#[trigger] list[j]).name,
        (#[trigger] list[i]).name,
    ) by {
        assert(!order::list_before(key(list[j]), key(list[i])));
        if order::before(list[j].name, list[i].name) {
            order::lemma_total(list[j].name, list[i].name);
            let a = seq![list[j].name];
            let b = seq![list[i].name];
            assert(order::list_before_at(a, b, 0));
        }
    }
}

proof fn lemma_nodes_of_held(start: Seq<char>, depth: nat, dev: u64, host: &Host)
    requires
        proper(host),
        start.len() > 0,
    ensures
        ({
            let list = by_name(walked(start, depth + 1, dev, host, None).children);
            &&& forall|name: Seq<char>| #[trigger]
                goes_into(start, name, dev, host) ==> exists|k: int|
                    0 <= k < list.len() && node_at(#[trigger] list[k], start, name, depth, host)
            &&& forall|k: int|
                #![trigger list[k]]
                0 <= k < list.len() ==> exists|name: Seq<char>|
                    goes_into(start, name, dev, host) && node_at(list[k], start, name, depth, host)
        }),
{
    let key = |n: NodeModel| seq![n.name];
    let held = walked(start, depth + 1, dev, host, None).children;
    let list = by_name(held);
    order::law_sorting_orders_and_keeps(held, key);
    if let Some(names) = host.listing(start) {
        lemma_children_of_names(start, names, names.len(), depth, dev, host);
        assert forall|name: Seq<char>| #[trigger] goes_into(start, name, dev, host) implies exists|
            k: int,
        |
            0 <= k < list.len() && node_at(#[trigger] list[k], start, name, depth, host) by {
            let j = choose|j: int| 0 <= j < names.len() && names[j] == name;
            assert(goes_into(start, names[j], dev, host));
            let k = choose|k: int|
                0 <= k < held.len() && node_at(#[trigger] held[k], start, names[j], depth, host);
            order::lemma_sorted_holds(held, key, held[k]);
            assert(held.contains(held[k]));
            let m = choose|m: int| 0 <= m < list.len() && list[m] == held[k];
            assert(node_at(list[m], start, name, depth, host));
        }
        assert forall|k: int|
            #![trigger list[k]]
            0 <= k < list.len() implies exists|name: Seq<char>|
                goes_into(start, name, dev, host) && node_at(
                    list[k],
                    start,
                    name,
                    depth,
                    host,
                ) by {
            order::lemma_sorted_holds(held, key, list[k]);
            assert(list.contains(list[k]));
            let m = choose|m: int| 0 <= m < held.len() && held[m] == list[k];
            let j = choose|j: int|
                0 <= j < names.len() && goes_into(start, #[trigger] names[j], dev, host) && node_at(
                    held[m],
                    start,
                    names[j],
                    depth,
                    host,
                );
            assert(goes_into(start, names[j], dev, host));
        }
    }
}

/// How many levels are kept does not change which directories there are.
proof fn lemma_same_count_of_names(
    dir: Seq<char>,
    names: Seq<Seq<char>>,
    n: nat,
    depth: nat,
    dev: u64,
    host: &Host,
)
    ensures
        walked_names(dir, names, n, 0, dev, host, None).children.len() == walked_names(
            dir,
            names,
            n,
            depth + 1,
            dev,
            host,
            None,
        ).children.len(),
    decreases n,
{
    if n > 0 {
        lemma_same_count_of_names(dir, names, (n - 1) as nat, depth, dev, host);
        lemma_no_end_of_names(dir, names, (n - 1) as nat, 0, dev, host);
        lemma_no_end_of_names(dir, names, (n - 1) as nat, depth + 1, dev, host);
    }
}

/// How many directories scans of those that the first `n` names go into
/// visit, all together.
pub open spec fn visited_below(
    dir: Seq<char>,
    names: Seq<Seq<char>>,
    n: int,
    dev: u64,
    host: &Host,
) -> nat
    decreases n,
{
    if n <= 0 {
        0
    } else {
        visited_below(dir, names, n - 1, dev, host) + (if goes_into(
            dir,
            names[n - 1],
            dev,
            host,
        ) {
            scanned(
                paths::below(dir, names[n - 1]),
                0,
                0,
                host,
                Cancel::Never,
            ).dirs_visited as nat
        } else {
            0nat
        })
    }
}

proof fn lemma_visited(path: Seq<char>, levels: nat, other: nat, dev: u64, host: &Host)
    ensures
        walked(path, levels, dev, host, None).visited == walked(
            path,
            other,
            dev,
            host,
            None,
        ).visited,
    decreases room(path, host), 1nat, 0nat,
{
    if let Some(names) = host.listing(path) {
        lemma_visited_of_names(path, names, names.len(), levels, other, dev, host);
    }
}

proof fn lemma_visited_of_names(
    dir: Seq<char>,
    names: Seq<Seq<char>>,
    n: nat,
    levels: nat,
    other: nat,
    dev: u64,
    host: &Host,
)
    ensures
        walked_names(dir, names, n, levels, dev, host, None).visited == walked_names(
            dir,
            names,
            n,
            other,
            dev,
            host,
            None,
        ).visited,
    decreases room(dir, host), 0nat, n,
{
    if n > 0 {
        lemma_visited_of_names(dir, names, (n - 1) as nat, levels, other, dev, host);
        lemma_no_end_of_names(dir, names, (n - 1) as nat, levels, dev, host);
        lemma_no_end_of_names(dir, names, (n - 1) as nat, other, dev, host);
        let path = paths::joined(dir, names[n - 1]);
        if let Some(entry) = host.found(path) {
            if path.len() > dir.len() {
                lemma_room_shrinks(dir, path, host);
                lemma_visited(path, one_less(levels), one_less(other), dev, host);
            }
        }
    }
}

proof fn lemma_visited_below(
    dir: Seq<char>,
    names: Seq<Seq<char>>,
    n: nat,
    levels: nat,
    dev: u64,
    host: &Host,
)
    requires
        proper(host),
        dir.len() > 0,
        host.listing(dir) == Some(names),
        n <= names.len(),
        walked_names(dir, names, n, levels, dev, host, None).visited < u64::MAX,
    ensures
        walked_names(dir, names, n, levels, dev, host, None).visited == visited_below(
            dir,
            names,
            n as int,
            dev,
            host,
        ),
    decreases n,
{
    if n > 0 {
        lemma_no_end_of_names(dir, names, (n - 1) as nat, levels, dev, host);
        assert(paths::entry_name(host.listing(dir)->0[n - 1]));
        let name = names[n - 1];
        paths::lemma_below(dir, name);
        let path = paths::below(dir, name);
        assert(names.contains(name));
        lemma_visited_below(dir, names, (n - 1) as nat, levels, dev, host);
        if goes_into(dir, name, dev, host) {
            lemma_visited(path, one_less(levels), 0, dev, host);
        }
    }
}

/// A scan visits the directory it starts at, and all that scans of the
/// directories right below it visit.
pub proof fn law_every_directory_is_visited(
    start: Seq<char>,
    depth: nat,
    limit: nat,
    host: &Host,
)
    requires
        proper(host),
        start.len() > 0,
        host.found(start) is Some,
        host.found(start)->0.kind == Kind::Dir,
        host.listing(start) is Some,
        scanned(start, depth, limit, host, Cancel::Never).dirs_visited < u64::MAX,
    ensures
        scanned(start, depth, limit, host, Cancel::Never).dirs_visited == 1 + visited_below(
            start,
            host.listing(start)->0,
            host.listing(start)->0.len() as int,
            host.found(start)->0.dev,
            host,
        ),
{
    let dev = host.found(start)->0.dev;
    let names = host.listing(start)->0;
    lemma_visited_below(start, names, names.len(), depth, dev, host);
}

} // verus!

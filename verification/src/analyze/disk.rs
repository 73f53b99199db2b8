//! How full a filesystem is.

use vstd::prelude::*;

use crate::ctx::Ctx;
use crate::host::Host;
use crate::paths;
use crate::safety::protected::{unescape_octal, unescaped_text};
use crate::text;

verus! {

broadcast use vstd::seq::group_seq_axioms;

#[derive(Debug, PartialEq)]
pub struct DiskTotals {
    pub total: u64,
    pub used: u64,
    pub available: u64,
    pub fs_kind: String,
    pub btrfs_unallocated: Option<u64>,
}

/// A filesystem's own numbers, in blocks of `fragment` bytes.
#[derive(Debug, Clone, Copy)]
pub struct Blocks {
    pub fragment: u64,
    pub blocks: u64,
    pub free: u64,
    pub available: u64,
}

impl Blocks {
    /// Whether the numbers add up: no more is free than there is, and
    /// everything can be counted in bytes.
    pub open spec fn sound(&self) -> bool {
        &&& self.free <= self.blocks
        &&& self.blocks * self.fragment <= u64::MAX
        &&& self.available * self.fragment <= u64::MAX
    }
}

// ---------------------------------------------------------------- the mount point

/// How many steps a path takes.
pub open spec fn depth(path: Seq<char>) -> nat {
    paths::names(path).len() + (if paths::absolute(path) {
        1nat
    } else {
        0nat
    })
}

fn depth_of(path: &str) -> (r: u128)
    ensures
        r == depth(path@),
{
    let names = paths::names_of(path);
    assert(text::texts(names.names@).len() == names.names@.len());
    let n: u128 = names.names.len() as u128;
    if names.absolute {
        n + 1
    } else {
        n
    }
}

/// The best of the first `n` mounts for `path`: its mount point, device and
/// filesystem. A deeper mount point is better; of two as deep the first.
pub open spec fn best_mount(lines: Seq<Seq<char>>, n: int, path: Seq<char>) -> Option<
    (Seq<char>, Seq<char>, Seq<char>),
>
    decreases n,
{
    if n <= 0 {
        None
    } else {
        let before = best_mount(lines, n - 1, path);
        let words = text::words(lines[n - 1]);
        if words.len() < 3 {
            before
        } else {
            let point = unescaped_text(words[1]);
            let better = match before {
                Some(best) => depth(point) > depth(best.0),
                None => true,
            };
            if paths::under(path, point) && better {
                Some((point, words[0], words[2]))
            } else {
                before
            }
        }
    }
}

/// The device and filesystem that `path` is on.
pub open spec fn mount_of(mounts: Seq<char>, path: Seq<char>) -> Option<(Seq<char>, Seq<char>)> {
    let lines = text::lines(mounts);
    match best_mount(lines, lines.len() as int, path) {
        Some(best) => Some((best.1, best.2)),
        None => None,
    }
}

/// Looks `path` up in a list of mounts. Mount points are escaped in octal.
pub fn fs_for_path(mounts: &str, path: &str) -> (r: Option<(String, String)>)
    ensures
        text::opt_pair(r) == mount_of(mounts@, path@),
{
    let lines = text::split_lines(mounts);
    let ghost all = text::lines(mounts@);
    let mut best: Option<(String, String, String)> = None;
    let mut i: usize = 0;
    while i < lines.len()
        invariant
            i <= lines.len(),
            all == text::texts(lines@),
            triple_view(best) == best_mount(all, i as int, path@),
        decreases lines.len() - i,
    {
        assert(all[i as int] == lines@[i as int]@);
        let words = text::split_words(lines[i].as_str());
        assert(text::texts(words@).len() == words@.len());
        if words.len() >= 3 {
            let point = unescape_octal(words[1].as_str());
            assert(point@ == unescaped_text(text::texts(words@)[1]));
            let better = match &best {
                Some(b) => depth_of(point.as_str()) > depth_of(b.0.as_str()),
                None => true,
            };
            if paths::is_under(path, point.as_str()) && better {
                best = Some((point, words[0].clone(), words[2].clone()));
                assert(triple_view(best) == Some(
                    (
                        unescaped_text(text::texts(words@)[1]),
                        text::texts(words@)[0],
                        text::texts(words@)[2],
                    ),
                ));
            }
        }
        i += 1;
    }
    match best {
        Some(b) => Some((b.1, b.2)),
        None => None,
    }
}

pub open spec fn triple_view(o: Option<(String, String, String)>) -> Option<
    (Seq<char>, Seq<char>, Seq<char>),
> {
    match o {
        Some(t) => Some((t.0@, t.1@, t.2@)),
        None => None,
    }
}

// ------------------------------------------------------------------------- btrfs

/// The number in the file that tells how much of a kind is allocated.
pub open spec fn chunk(uuid_dir: Seq<char>, kind: Seq<char>, host: &Host) -> Option<nat> {
    let file = paths::joined(
        paths::joined(paths::joined(uuid_dir, "allocation"@), kind),
        "disk_total"@,
    );
    match host.contents(file) {
        Some(contents) => text::number(text::trim(contents), u64::MAX as nat),
        None => None,
    }
}

fn read_chunk(uuid_dir: &str, kind: &str, host: &Host) -> (r: Option<u64>)
    ensures
        opt_nat(r) == chunk(uuid_dir@, kind@, host),
{
    let dir = paths::join(paths::join(uuid_dir, "allocation").as_str(), kind);
    let file = paths::join(dir.as_str(), "disk_total");
    match host.read(file.as_str()) {
        Some(contents) => {
            let digits = text::trimmed(contents.as_str());
            text::parse_number(digits.as_str(), u64::MAX)
        },
        None => None,
    }
}

pub open spec fn opt_nat(o: Option<u64>) -> Option<nat> {
    match o {
        Some(n) => Some(n as nat),
        None => None,
    }
}

pub open spec fn capped(n: nat) -> u64 {
    if n > u64::MAX {
        u64::MAX
    } else {
        n as u64
    }
}

/// What a btrfs filesystem has allocated for data, metadata and itself; the
/// largest number there is where they add up to more.
pub open spec fn chunks(uuid_dir: Seq<char>, host: &Host) -> Option<u64> {
    match (
        chunk(uuid_dir, "data"@, host),
        chunk(uuid_dir, "metadata"@, host),
        chunk(uuid_dir, "system"@, host),
    ) {
        (Some(a), Some(b), Some(c)) => Some(capped(a + b + c)),
        _ => None,
    }
}

/// The first of the names from `from` on whose filesystem holds the device.
pub open spec fn allocated_from(
    sysfs: Seq<char>,
    names: Seq<Seq<char>>,
    from: int,
    device: Seq<char>,
    host: &Host,
) -> Option<u64>
    decreases names.len() - from,
{
    if from < 0 || from >= names.len() {
        None
    } else {
        let uuid_dir = paths::joined(sysfs, names[from]);
        if host.reaches(paths::joined(paths::joined(uuid_dir, "devices"@), device)) {
            chunks(uuid_dir, host)
        } else {
            allocated_from(sysfs, names, from + 1, device, host)
        }
    }
}

/// What the btrfs filesystem on `device` has allocated.
pub open spec fn allocated(sysfs: Seq<char>, device: Seq<char>, host: &Host) -> Option<u64> {
    match (paths::file_name(device), host.listing(sysfs)) {
        (Some(name), Some(names)) => allocated_from(sysfs, names, 0, name, host),
        _ => None,
    }
}

/// Sums what the filesystem on `device` has allocated, as told below
/// `sysfs`. Absent where anything is missing or makes no sense.
pub fn btrfs_allocated(sysfs: &str, device: &str, host: &Host) -> (r: Option<u64>)
    ensures
        r == allocated(sysfs@, device@, host),
{
    let name = match paths::file_name_of(device) {
        Some(name) => name,
        None => {
            return None;
        },
    };
    let names = match host.list(sysfs) {
        Some(names) => names,
        None => {
            return None;
        },
    };
    let ghost all = text::texts(names@);
    let mut i: usize = 0;
    while i < names.len()
        invariant
            i <= names.len(),
            all == text::texts(names@),
            allocated(sysfs@, device@, host) == allocated_from(
                sysfs@,
                all,
                i as int,
                name@,
                host,
            ),
        decreases names.len() - i,
    {
        assert(all[i as int] == names@[i as int]@);
        let uuid_dir = paths::join(sysfs, names[i].as_str());
        let devices = paths::join(uuid_dir.as_str(), "devices");
        if host.is_there(paths::join(devices.as_str(), name.as_str()).as_str()) {
            let a = read_chunk(uuid_dir.as_str(), "data", host);
            let b = read_chunk(uuid_dir.as_str(), "metadata", host);
            let c = read_chunk(uuid_dir.as_str(), "system", host);
            return match (a, b, c) {
                (Some(a), Some(b), Some(c)) => Some(a.saturating_add(b).saturating_add(c)),
                _ => None,
            };
        }
        i += 1;
    }
    None
}

// ------------------------------------------------------------------------- totals

/// The kind of filesystem that `path` is on, and what a btrfs one has not
/// allocated of its `total`.
pub open spec fn kind_and_rest(ctx: &Ctx, host: &Host, path: Seq<char>, total: u64) -> (
    Seq<char>,
    Option<u64>,
) {
    let mount = match host.contents(paths::joined(ctx.root@, "proc/self/mounts"@)) {
        Some(mounts) => mount_of(mounts, path),
        None => None,
    };
    match mount {
        Some((device, kind)) => if kind == "btrfs"@ {
            (
                kind,
                match allocated(paths::joined(ctx.root@, "sys/fs/btrfs"@), device, host) {
                    Some(a) => Some(
                        if a > total {
                            0
                        } else {
                            (total - a) as u64
                        },
                    ),
                    None => None,
                },
            )
        } else {
            (kind, None)
        },
        None => ("unknown"@, None),
    }
}

/// The totals of the filesystem that `path` is on, from its own numbers.
pub fn disk_totals(ctx: &Ctx, host: &Host, path: &str, stat: Blocks) -> (r: DiskTotals)
    requires
        stat.sound(),
    ensures
        r.total == stat.blocks * stat.fragment,
        r.used == (stat.blocks - stat.free) * stat.fragment,
        r.available == stat.available * stat.fragment,
        (r.fs_kind@, r.btrfs_unallocated) == kind_and_rest(ctx, host, path@, r.total),
{
    assert((stat.blocks - stat.free) * stat.fragment <= stat.blocks * stat.fragment)
        by (nonlinear_arith)
        requires
            stat.free <= stat.blocks,
    ;
    assert(0 <= (stat.blocks - stat.free) * stat.fragment) by (nonlinear_arith)
        requires
            stat.free <= stat.blocks,
    ;
    let total: u64 = stat.blocks * stat.fragment;
    let used: u64 = (stat.blocks - stat.free) * stat.fragment;
    let available: u64 = stat.available * stat.fragment;
    let mounts = host.read(paths::join(ctx.root.as_str(), "proc/self/mounts").as_str());
    let mount = match mounts {
        Some(text_of) => fs_for_path(text_of.as_str(), path),
        None => None,
    };
    match mount {
        Some((device, kind)) => if text::same(kind.as_str(), "btrfs") {
            let sysfs = paths::join(ctx.root.as_str(), "sys/fs/btrfs");
            let rest: Option<u64> = match btrfs_allocated(
                sysfs.as_str(),
                device.as_str(),
                host,
            ) {
                Some(a) => if a > total {
                    Some(0)
                } else {
                    Some(total - a)
                },
                None => None,
            };
            DiskTotals { total, used, available, fs_kind: kind, btrfs_unallocated: rest }
        } else {
            DiskTotals { total, used, available, fs_kind: kind, btrfs_unallocated: None }
        },
        None => DiskTotals {
            total,
            used,
            available,
            fs_kind: "unknown".to_owned(),
            btrfs_unallocated: None,
        },
    }
}

// -------------------------------------------------------------------------- laws

/// The mount that is found holds the path, and no listed mount that holds it
/// is deeper.
pub proof fn law_deepest_mount_wins(lines: Seq<Seq<char>>, n: int, path: Seq<char>, k: int)
    requires
        0 <= k < n <= lines.len(),
        text::words(lines[k]).len() >= 3,
        paths::under(path, unescaped_text(text::words(lines[k])[1])),
    ensures
        match best_mount(lines, n, path) {
            Some((point, _, _)) => paths::under(path, point) && depth(
                unescaped_text(text::words(lines[k])[1]),
            ) <= depth(point),
            None => false,
        },
    decreases n,
{
    if k < n - 1 {
        law_deepest_mount_wins(lines, n - 1, path, k);
    } else {
        lemma_best_holds(lines, n - 1, path);
    }
}

proof fn lemma_best_holds(lines: Seq<Seq<char>>, n: int, path: Seq<char>)
    ensures
        match best_mount(lines, n, path) {
            Some((point, _, _)) => paths::under(path, point),
            None => true,
        },
    decreases n,
{
    if n > 0 {
        lemma_best_holds(lines, n - 1, path);
    }
}

/// What a btrfs filesystem has not allocated and what it has allocated, for
/// data, metadata and itself, make up the whole; other filesystems do not
/// tell.
pub proof fn law_allocated_and_unallocated_make_the_whole(
    ctx: &Ctx,
    host: &Host,
    path: Seq<char>,
    total: u64,
    a: u64,
)
    requires
        ctx.root@.len() > 0,
        ctx.root@.last() != '/',
        host.contents(ctx.root@ + "/proc/self/mounts"@) is Some,
        mount_of(host.contents(ctx.root@ + "/proc/self/mounts"@)->0, path) is Some,
    ensures
        ({
            let mount = mount_of(host.contents(ctx.root@ + "/proc/self/mounts"@)->0, path)->0;
            let told = kind_and_rest(ctx, host, path, total);
            &&& told.0 == mount.1
            &&& mount.1 != "btrfs"@ ==> told.1 is None
            &&& mount.1 == "btrfs"@ && allocated(
                ctx.root@ + "/sys/fs/btrfs"@,
                mount.0,
                host,
            ) == Some(a) && a <= total ==> told.1 is Some && told.1->0 + a == total
            &&& mount.1 == "btrfs"@ && allocated(
                ctx.root@ + "/sys/fs/btrfs"@,
                mount.0,
                host,
            ) is None ==> told.1 is None
        }),
{
    reveal_strlit("/");
    reveal_strlit("proc/self/mounts");
    reveal_strlit("/proc/self/mounts");
    reveal_strlit("sys/fs/btrfs");
    reveal_strlit("/sys/fs/btrfs");
    let root = ctx.root@;
    assert(paths::joined(root, "proc/self/mounts"@) =~= root + "/proc/self/mounts"@);
    assert(paths::joined(root, "sys/fs/btrfs"@) =~= root + "/sys/fs/btrfs"@);
}

/// What is allocated is told by three files, one each for data, metadata and
/// the filesystem itself.
pub proof fn law_allocations_add_up(dir: Seq<char>, host: &Host, a: u64, b: u64, c: u64)
    requires
        dir.len() > 0,
        dir.last() != '/',
        a + b + c <= u64::MAX,
        host.contents(dir + "/allocation/data/disk_total"@) == Some(text::decimal(a as nat)),
        host.contents(dir + "/allocation/metadata/disk_total"@) == Some(text::decimal(b as nat)),
        host.contents(dir + "/allocation/system/disk_total"@) == Some(text::decimal(c as nat)),
    ensures
        chunks(dir, host) == Some((a + b + c) as u64),
{
    lemma_chunk(dir, "data"@, "/allocation/data/disk_total"@, host, a);
    lemma_chunk(dir, "metadata"@, "/allocation/metadata/disk_total"@, host, b);
    lemma_chunk(dir, "system"@, "/allocation/system/disk_total"@, host, c);
}

proof fn lemma_chunk(dir: Seq<char>, kind: Seq<char>, file: Seq<char>, host: &Host, n: u64)
    requires
        dir.len() > 0,
        dir.last() != '/',
        kind == "data"@ && file == "/allocation/data/disk_total"@ || kind == "metadata"@ && file
            == "/allocation/metadata/disk_total"@ || kind == "system"@ && file
            == "/allocation/system/disk_total"@,
        host.contents(dir + file) == Some(text::decimal(n as nat)),
    ensures
        chunk(dir, kind, host) == Some(n as nat),
{
    reveal_strlit("/");
    reveal_strlit("allocation");
    reveal_strlit("data");
    reveal_strlit("metadata");
    reveal_strlit("system");
    reveal_strlit("disk_total");
    reveal_strlit("/allocation/data/disk_total");
    reveal_strlit("/allocation/metadata/disk_total");
    reveal_strlit("/allocation/system/disk_total");
    let a = dir + "/"@ + "allocation"@;
    assert(paths::joined(dir, "allocation"@) =~= a);
    assert(a.last() == 'n');
    let b = a + "/"@ + kind;
    assert(paths::joined(a, kind) =~= b);
    assert(b.last() == kind.last());
    assert(kind.last() != '/');
    let c = b + "/"@ + "disk_total"@;
    assert(paths::joined(b, "disk_total"@) =~= c);
    if kind == "data"@ {
        assert("/allocation/data/disk_total"@ =~= "/"@ + "allocation"@ + "/"@ + "data"@ + "/"@
            + "disk_total"@);
    } else if kind == "metadata"@ {
        assert("/allocation/metadata/disk_total"@ =~= "/"@ + "allocation"@ + "/"@ + "metadata"@
            + "/"@ + "disk_total"@);
    } else {
        assert("/allocation/system/disk_total"@ =~= "/"@ + "allocation"@ + "/"@ + "system"@
            + "/"@ + "disk_total"@);
    }
    assert(file =~= "/"@ + "allocation"@ + "/"@ + kind + "/"@ + "disk_total"@);
    assert(c =~= dir + file);
    let s = text::decimal(n as nat);
    text::lemma_decimal(n as nat);
    assert(text::digit(s[0]) && text::digit(s[s.len() - 1]));
    assert(text::bare(s));
    text::lemma_trim_of_bare(s);
    text::lemma_number_of_decimal(n as nat, u64::MAX as nat);
}

/// Of two mounts as deep, the one that is listed first counts.
pub proof fn law_the_first_of_equal_mounts_wins(
    lines: Seq<Seq<char>>,
    n: int,
    path: Seq<char>,
)
    requires
        0 < n <= lines.len(),
        text::words(lines[n - 1]).len() >= 3,
        best_mount(lines, n - 1, path) is Some,
        depth(unescaped_text(text::words(lines[n - 1])[1])) == depth(
            (best_mount(lines, n - 1, path)->0).0,
        ),
    ensures
        best_mount(lines, n, path) == best_mount(lines, n - 1, path),
{
}

} // verus!

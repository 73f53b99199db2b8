use badger::analyze::disk::{btrfs_allocated, disk_totals, fs_for_path, Blocks, DiskTotals};
use badger::analyze::sizer::{
    crosses_device, is_progress_checkpoint, push_bounded, scan, Cancel, DirNode, LargeFile,
    ScanOptions, ScanResult,
};
use badger::analyze::trash::{
    candidate_name, percent_encode, record, refusal, same_device, trash_dirs, trash_path, Claim,
    TrashHands, TrashOutcome,
};
use badger::commands::analyze::{render_human, report, validated_target};
use badger::config::Config;
use badger::ctx::Ctx;
use badger::exec::Sight;
use badger::host::{Entry, Host, Kind};
use badger::runner::CmdOutput;
use badger::safety::journal::{MemoryLog, Record};
use badger::safety::protected::SafetyEnv;

/// A machine made up for a test: every path has its parents, and a directory
/// lists what was put in it.
struct World {
    host: Host,
}

const NOW: i64 = 1_700_000_000_000_000_000;
const DAY: i64 = 86_400_000_000_000;

impl World {
    fn new() -> World {
        let mut host = Host::new();
        host.now = NOW;
        let mut world = World { host };
        world.dir(HOME);
        world
    }

    fn add(&mut self, path: &str, kind: Kind, size: u64, text: Option<&str>) {
        if self.host.find(path).is_some() {
            return;
        }
        if let Some((parent, name)) = path.rsplit_once('/') {
            let parent = if parent.is_empty() { "/" } else { parent };
            if path != "/" {
                self.add(parent, Kind::Dir, 0, None);
                for entry in self.host.entries.iter_mut() {
                    if entry.path == parent {
                        entry.names.get_or_insert_with(Vec::new).push(name.to_string());
                    }
                }
            }
        }
        let ino = self.host.entries.len() as u64 + 1;
        self.host.entries.push(Entry {
            path: path.to_string(),
            kind,
            leads_to_dir: kind == Kind::Dir,
            leads_to_file: kind == Kind::File,
            names: if kind == Kind::Dir { Some(Vec::new()) } else { None },
            size,
            modified: Some(NOW),
            text: text.map(|t| t.to_string()),
            uid: 1000,
            dev: 1,
            ino,
        });
        self.host.resolved.push((path.to_string(), path.to_string()));
    }

    fn dir(&mut self, path: &str) {
        self.add(path, Kind::Dir, 0, None);
    }

    fn file(&mut self, path: &str, size: u64) {
        self.add(path, Kind::File, size, None);
    }

    fn text(&mut self, path: &str, contents: &str) {
        self.add(path, Kind::File, contents.len() as u64, Some(contents));
    }

    fn entry(&mut self, path: &str) -> &mut Entry {
        self.host.entries.iter_mut().find(|e| e.path == path).unwrap()
    }

    fn sized_dir(&mut self, path: &str, size: u64) {
        self.add(path, Kind::Dir, size, None);
        self.entry(path).size = size;
    }

    fn age(&mut self, path: &str, days: i64) {
        self.entry(path).modified = Some(NOW - days * DAY);
    }
}

const ROOT: &str = "/sandbox/root";
const HOME: &str = "/sandbox/root/home/user";

fn s(list: &[&str]) -> Vec<String> {
    list.iter().map(|x| x.to_string()).collect()
}

fn home(rel: &str) -> String {
    format!("{HOME}/{rel}")
}

fn ctx() -> Ctx {
    Ctx {
        root: ROOT.to_string(),
        home: HOME.to_string(),
        config_dir: "/sandbox/config".to_string(),
        state_dir: "/sandbox/state".to_string(),
        dry_run: false,
        debug: false,
        config: Config::default(),
        sandboxed: true,
        available_commands: None,
        fake_command_output: None,
    }
}

fn env() -> SafetyEnv {
    SafetyEnv {
        root: ROOT.to_string(),
        home: HOME.to_string(),
        mount_points: Vec::new(),
        euid: 1000,
    }
}

fn output(stdout: &str) -> CmdOutput {
    CmdOutput { success: true, stdout: stdout.to_string(), stderr: String::new() }
}

#[test]
fn test_fs_for_path_picks_longest_prefix_mount() {
    let mounts = "\
/dev/sda1 / ext4 rw 0 0
/dev/sda2 /home ext4 rw 0 0
";
    let got = fs_for_path(mounts, "/home/user/file").unwrap();
    assert_eq!(got, ("/dev/sda2".to_string(), "ext4".to_string()));
}

#[test]
fn test_fs_for_path_respects_component_boundaries() {
    let mounts = "\
/dev/root / ext4 rw 0 0
/dev/sda2 /home ext4 rw 0 0
";
    let got = fs_for_path(mounts, "/homework/x").unwrap();
    assert_eq!(got, ("/dev/root".to_string(), "ext4".to_string()));
}

#[test]
fn test_fs_for_path_decodes_octal_escaped_mount_point() {
    let mounts = "/dev/sda3 /mnt/My\\040Files ext4 rw 0 0\n";
    let got = fs_for_path(mounts, "/mnt/My Files/sub").unwrap();
    assert_eq!(got, ("/dev/sda3".to_string(), "ext4".to_string()));
}

#[test]
fn test_fs_for_path_empty_text_is_none() {
    assert_eq!(fs_for_path("", "/anything"), None);
}

fn btrfs_world() -> World {
    let mut w = World::new();
    let uuid = format!("{ROOT}/sys/fs/btrfs/fake-uuid");
    w.dir(&format!("{uuid}/devices/fake1"));
    w.text(&format!("{uuid}/allocation/data/disk_total"), "1000000");
    w.text(&format!("{uuid}/allocation/metadata/disk_total"), "2000000\n");
    w.text(&format!("{uuid}/allocation/system/disk_total"), "500000");
    w
}

#[test]
fn test_btrfs_allocated_sums_data_metadata_system() {
    let w = btrfs_world();
    let sysfs = format!("{ROOT}/sys/fs/btrfs");
    assert_eq!(btrfs_allocated(&sysfs, "/dev/fake1", &w.host), Some(3_500_000));
}

#[test]
fn test_btrfs_allocated_wrong_device_is_none() {
    let w = btrfs_world();
    let sysfs = format!("{ROOT}/sys/fs/btrfs");
    assert_eq!(btrfs_allocated(&sysfs, "/dev/nope", &w.host), None);
}

#[test]
fn test_btrfs_allocated_missing_allocation_file_is_none() {
    let mut w = btrfs_world();
    w.entry(&format!("{ROOT}/sys/fs/btrfs/fake-uuid/allocation/system/disk_total")).text = None;
    let sysfs = format!("{ROOT}/sys/fs/btrfs");
    assert_eq!(btrfs_allocated(&sysfs, "/dev/fake1", &w.host), None);
}

fn blocks() -> Blocks {
    Blocks { fragment: 4096, blocks: 1000, free: 400, available: 300 }
}

#[test]
fn test_disk_totals_reports_btrfs_unallocated_space() {
    let mut w = btrfs_world();
    let data = format!("{ROOT}/data");
    w.dir(&data);
    w.text(&format!("{ROOT}/proc/self/mounts"), &format!("/dev/fake1 {data} btrfs rw 0 0\n"));
    let got = disk_totals(&ctx(), &w.host, &data, blocks());
    assert_eq!(got.fs_kind, "btrfs");
    assert_eq!(got.total, 4_096_000);
    assert_eq!(got.used, 600 * 4096);
    assert_eq!(got.available, 300 * 4096);
    assert_eq!(got.btrfs_unallocated, Some(596_000));
}

#[test]
fn test_disk_totals_smoke_for_ext4() {
    let mut w = World::new();
    let data = format!("{ROOT}/data");
    w.dir(&data);
    w.text(&format!("{ROOT}/proc/self/mounts"), &format!("/dev/fake0 {data} ext4 rw 0 0\n"));
    let got = disk_totals(&ctx(), &w.host, &data, blocks());
    assert!(got.total > 0);
    assert!(got.used <= got.total);
    assert!(got.available <= got.total);
    assert_eq!(got.fs_kind, "ext4");
    assert_eq!(got.btrfs_unallocated, None);
}

#[test]
fn test_disk_totals_missing_mounts_file_is_unknown_not_an_error() {
    let w = World::new();
    let got = disk_totals(&ctx(), &w.host, "/anything", blocks());
    assert_eq!(got.fs_kind, "unknown");
    assert_eq!(got.btrfs_unallocated, None);
}

#[test]
fn test_crosses_device_detects_different_dev_ids() {
    assert!(crosses_device(2, 1));
    assert!(!crosses_device(1, 1));
}

#[test]
fn test_is_progress_checkpoint_multiples_of_100() {
    assert!(is_progress_checkpoint(100));
    assert!(is_progress_checkpoint(200));
    assert!(!is_progress_checkpoint(1));
    assert!(!is_progress_checkpoint(99));
    assert!(!is_progress_checkpoint(150));
}

fn large_file(path: &str, bytes: u64) -> LargeFile {
    LargeFile { path: path.to_string(), bytes, mtime: 0 }
}

#[test]
fn test_push_bounded_evicts_smallest_bytes_then_largest_path() {
    let mut list: Vec<LargeFile> = Vec::new();
    push_bounded(&mut list, 2, large_file("b", 10));
    push_bounded(&mut list, 2, large_file("a", 10));
    // Full at limit 2 with equal bytes; "b" is the worse (evict-first) entry.
    // A smaller-bytes candidate must not replace anything.
    push_bounded(&mut list, 2, large_file("z", 5));
    // An equal-bytes candidate with a lexicographically smaller path than the
    // current worst ("b") must replace it.
    push_bounded(&mut list, 2, large_file("0", 10));

    assert_eq!(list.len(), 2);
    assert_eq!(list[0].path, "0");
    assert_eq!(list[1].path, "a");
}

fn options(max_depth: usize, top_files_limit: usize) -> ScanOptions {
    ScanOptions { max_depth, workers: 1, top_files_limit }
}

fn tree() -> (World, String) {
    let mut w = World::new();
    let root = home("tree");
    w.dir(&root);
    (w, root)
}

#[test]
fn test_computes_exact_bytes_and_file_counts() {
    let (mut w, root) = tree();
    w.file(&format!("{root}/a/b/one.txt"), 4096);
    w.file(&format!("{root}/a/two.txt"), 8192);
    w.file(&format!("{root}/top.txt"), 512);
    let result = scan(&root, &options(2, 50), &w.host, Cancel::Never);
    assert_eq!(result.root.bytes, 4096 + 8192 + 512);
    assert_eq!(result.root.files, 3);
    assert_eq!(result.dirs_visited, 3);
    assert!(result.complete);
    assert!(result.warnings.is_empty());
}

#[test]
fn test_prunes_children_past_max_depth_but_keeps_aggregated_sizes() {
    let (mut w, root) = tree();
    w.file(&format!("{root}/l1/l2/l3/l4/deep.txt"), 4096);
    let result = scan(&root, &options(2, 50), &w.host, Cancel::Never);

    let l1 = result.root.children.iter().find(|n| n.name == "l1").unwrap();
    assert_eq!(l1.bytes, 4096);
    assert_eq!(l1.files, 1);
    assert!(!l1.truncated_depth);
    assert_eq!(l1.children.len(), 1);

    let l2 = &l1.children[0];
    assert_eq!(l2.name, "l2");
    assert_eq!(l2.bytes, 4096);
    assert_eq!(l2.files, 1);
    assert!(l2.truncated_depth);
    assert!(l2.children.is_empty());
}

#[test]
fn the_depth_cuts_nothing_but_the_tree() {
    let (mut w, root) = tree();
    w.file(&format!("{root}/l1/l2/l3/deep.txt"), 4096);
    w.file(&format!("{root}/l1/near.txt"), 100);
    w.file(&format!("{root}/m1/other.txt"), 7);
    let whole = scan(&root, &options(10, 2), &w.host, Cancel::Never);
    assert_eq!(whole.root.bytes, 4203);
    for depth in 0..5 {
        let cut = scan(&root, &options(depth, 2), &w.host, Cancel::Never);
        assert_eq!((cut.root.bytes, cut.root.files), (whole.root.bytes, whole.root.files));
        assert_eq!(cut.root.mtime, whole.root.mtime);
        assert_eq!(cut.dirs_visited, whole.dirs_visited);
        assert_eq!(cut.complete, whole.complete);
        let paths = |r: &ScanResult| -> Vec<String> {
            r.top_files.iter().map(|f| f.path.clone()).collect()
        };
        assert_eq!(paths(&cut), paths(&whole));
        assert_eq!(cut.root.children.is_empty(), depth == 0);
    }
}

#[test]
fn test_symlink_inside_tree_is_not_followed() {
    let (mut w, root) = tree();
    w.file(&home("big.txt"), 8192);
    let link = format!("{root}/link.txt");
    w.add(&link, Kind::Link, 0, None);
    w.entry(&link).leads_to_file = true;
    let result = scan(&root, &options(2, 50), &w.host, Cancel::Never);
    assert_eq!(result.root.bytes, 0);
    assert_eq!(result.root.files, 1);
}

#[test]
fn test_cancelled_before_start_returns_incomplete_empty_tree() {
    let (mut w, root) = tree();
    w.file(&format!("{root}/f.txt"), 4096);
    let result = scan(&root, &options(2, 50), &w.host, Cancel::Before);
    assert!(!result.complete);
    assert_eq!(result.dirs_visited, 0);
    assert!(result.root.children.is_empty());
    assert_eq!(result.root.bytes, 0);
    assert!(result.warnings.is_empty());
    assert!(result.skipped_mounts.is_empty());
}

#[test]
fn test_snapshots_directory_is_invisible() {
    let (mut w, root) = tree();
    w.file(&format!("{root}/.snapshots/big-file"), 4096);
    w.file(&format!("{root}/keep.txt"), 512);
    let result = scan(&root, &options(2, 50), &w.host, Cancel::Never);
    assert_eq!(result.root.files, 1);
    assert_eq!(result.root.bytes, 512);
    assert!(result.root.children.iter().all(|c| c.name != ".snapshots"));
}

#[test]
fn other_filesystems_are_told_of_and_left_out() {
    let (mut w, root) = tree();
    w.file(&format!("{root}/mnt/big"), 4096);
    w.entry(&format!("{root}/mnt")).dev = 7;
    let result = scan(&root, &options(2, 50), &w.host, Cancel::Never);
    assert_eq!(result.skipped_mounts, vec![format!("{root}/mnt")]);
    assert_eq!(result.root.bytes, 0);
}

#[test]
fn test_top_files_orders_largest_first() {
    let (mut w, root) = tree();
    w.file(&format!("{root}/small.txt"), 4096);
    w.file(&format!("{root}/a/med.txt"), 8192);
    w.file(&format!("{root}/a/b/big1.txt"), 12288);
    w.file(&format!("{root}/a/b/c/deep_big.txt"), 24576);
    w.file(&format!("{root}/a/b/c/d/deep_small.txt"), 8192);
    w.file(&format!("{root}/other/big4.txt"), 20480);
    let result = scan(&root, &options(2, 3), &w.host, Cancel::Never);
    let got: Vec<(String, u64)> =
        result.top_files.iter().map(|f| (f.path.clone(), f.bytes)).collect();
    assert_eq!(
        got,
        vec![
            (format!("{root}/a/b/c/deep_big.txt"), 24576),
            (format!("{root}/other/big4.txt"), 20480),
            (format!("{root}/a/b/big1.txt"), 12288),
        ]
    );
}

#[test]
fn test_top_files_excludes_skipped_snapshots() {
    let (mut w, root) = tree();
    w.file(&format!("{root}/.snapshots/huge.txt"), 24576);
    w.file(&format!("{root}/keep.txt"), 4096);
    let result = scan(&root, &options(2, 10), &w.host, Cancel::Never);
    assert!(result.top_files.iter().all(|f| !f.path.contains(".snapshots")));
    assert!(result.top_files.iter().any(|f| f.path == format!("{root}/keep.txt")));
}

#[test]
fn test_top_files_ties_break_by_path() {
    let (mut w, root) = tree();
    for name in ["z.txt", "a.txt", "m.txt", "b.txt"] {
        w.file(&format!("{root}/{name}"), 4096);
    }
    let result = scan(&root, &options(2, 2), &w.host, Cancel::Never);
    let got: Vec<String> = result.top_files.iter().map(|f| f.path.clone()).collect();
    assert_eq!(got, vec![format!("{root}/a.txt"), format!("{root}/b.txt")]);
}

#[test]
fn test_top_files_limit_zero_collects_nothing() {
    let (mut w, root) = tree();
    w.file(&format!("{root}/file.txt"), 4096);
    let result = scan(&root, &options(2, 0), &w.host, Cancel::Never);
    assert!(result.top_files.is_empty());
}

#[test]
fn test_unreadable_directory_produces_warning_and_scan_continues() {
    let (mut w, root) = tree();
    let locked = format!("{root}/locked");
    w.dir(&locked);
    w.entry(&locked).names = None;
    w.host.stat_errors.push((locked.clone(), "Permission denied".to_string()));
    w.file(&format!("{root}/ok/file.txt"), 512);
    let result = scan(&root, &options(2, 50), &w.host, Cancel::Never);
    assert_eq!(result.warnings, vec![format!("{locked}: Permission denied")]);
    let ok_node = result.root.children.iter().find(|n| n.name == "ok").unwrap();
    assert_eq!(ok_node.files, 1);
}

#[test]
fn a_single_file_and_a_missing_path_can_be_sized() {
    let (mut w, root) = tree();
    let file = format!("{root}/one");
    w.file(&file, 4096);
    let one = scan(&file, &options(2, 50), &w.host, Cancel::Never);
    assert_eq!((one.root.bytes, one.root.files, one.top_files.len()), (4096, 1, 1));
    let none = scan("/nowhere", &options(2, 50), &w.host, Cancel::Never);
    assert_eq!(none.warnings, s(&["/nowhere: No such file or directory"]));
    assert!(none.complete);
}

#[test]
fn a_scan_that_is_called_off_stops_there() {
    let mut w = World::new();
    let root = home("data");
    for name in ["a", "b", "c"] {
        w.file(&format!("{root}/{name}"), 512);
    }
    let part = scan(&root, &options(2, 50), &w.host, Cancel::After(2));
    assert_eq!((part.root.bytes, part.root.files, part.top_files.len()), (1024, 2, 2));
    assert!(!part.complete);
    let none = scan(&root, &options(2, 50), &w.host, Cancel::After(0));
    assert_eq!((none.root.files, none.dirs_visited, none.complete), (0, 1, false));
    let all = scan(&root, &options(2, 50), &w.host, Cancel::After(4));
    assert_eq!((all.root.files, all.complete), (3, true));
}

#[test]
fn test_percent_encode_leaves_plain_path_unchanged() {
    assert_eq!(percent_encode("/home/user/stuff/junk.txt"), "/home/user/stuff/junk.txt");
}

#[test]
fn test_percent_encode_escapes_space_percent_and_non_ascii() {
    assert_eq!(percent_encode("/a b"), "/a%20b");
    assert_eq!(percent_encode("/100%"), "/100%25");
    assert_eq!(percent_encode("/café"), "/caf%C3%A9");
}

#[test]
fn test_same_device_compares_dev_ids() {
    assert!(same_device(42, 42));
    assert!(!same_device(1, 2));
}

#[test]
fn trash_names_are_numbered_from_two() {
    assert_eq!(candidate_name("junk.txt", 0), "junk.txt");
    assert_eq!(candidate_name("junk.txt", 1), "junk.txt.2");
    assert_eq!(candidate_name("junk.txt", 2), "junk.txt.3");
}

/// A disk with a trash on it.
struct Bin {
    world: World,
    files: Vec<(String, String)>,
    trash_dev: u64,
    fails: &'static str,
}

impl TrashHands for Bin {
    fn look(&mut self, _start: &str, _path: &str) -> Result<Sight, String> {
        if self.fails == "look" {
            return Err("no mounts".to_string());
        }
        Ok(Sight { mount_points: Vec::new(), euid: 1000, host: self.world.host.clone() })
    }

    fn make_dir(&mut self, dir: &str) -> Result<(), String> {
        if dir.ends_with(self.fails) {
            return Err("read-only".to_string());
        }
        self.world.dir(dir);
        Ok(())
    }

    fn device_of(&mut self, path: &str) -> Result<u64, String> {
        if self.fails == "stat" {
            return Err("gone".to_string());
        }
        Ok(self.world.entry(path).dev)
    }

    fn device_of_dir(&mut self, _dir: &str) -> Result<u64, String> {
        Ok(self.trash_dev)
    }

    fn current_dir(&mut self) -> Result<String, String> {
        if self.fails == "cwd" {
            return Err("gone".to_string());
        }
        Ok("/work".to_string())
    }

    fn claim(&mut self, path: &str) -> Claim {
        if self.fails == "claim" {
            return Claim::Failed("read-only".to_string());
        }
        if self.files.iter().any(|f| f.0 == path) {
            return Claim::Taken;
        }
        self.files.push((path.to_string(), String::new()));
        Claim::Mine
    }

    fn write(&mut self, path: &str, contents: &str) -> Result<(), String> {
        if self.fails == "write" {
            return Err("full".to_string());
        }
        self.files.iter_mut().find(|f| f.0 == path).unwrap().1 = contents.to_string();
        Ok(())
    }

    fn rename(&mut self, from: &str, to: &str) -> Result<(), String> {
        if self.fails == "rename" {
            return Err("busy".to_string());
        }
        let below = format!("{from}/");
        for entry in self.world.host.entries.iter_mut() {
            if entry.path == from {
                entry.path = to.to_string();
            } else if let Some(rest) = entry.path.strip_prefix(&below) {
                entry.path = format!("{to}/{rest}");
            }
        }
        Ok(())
    }

    fn remove_file(&mut self, path: &str) {
        self.files.retain(|f| f.0 != path);
    }
}

fn bin(fails: &'static str) -> Bin {
    let mut world = World::new();
    world.file(&home("stuff/junk.txt"), 4096);
    Bin { world, files: Vec::new(), trash_dev: 1, fails }
}

struct Trashed {
    result: Result<TrashOutcome, String>,
    bin: Bin,
    records: Vec<Record>,
}

fn trash(bin: Bin, start: &str, path: &str) -> Trashed {
    let mut bin = bin;
    let mut log = MemoryLog::new();
    let (result, warning) = trash_path(&mut bin, &ctx(), start, path, "run-1", &mut log);
    assert_eq!(warning, None);
    Trashed { result, bin, records: log.records }
}

fn in_trash(rel: &str) -> String {
    home(&format!(".local/share/Trash/{rel}"))
}

#[test]
fn test_a_directory_can_be_trashed_wholly() {
    let mut full = bin("nothing");
    let olddir = home("stuff/olddir");
    full.world.sized_dir(&olddir, 4096);
    full.world.file(&format!("{olddir}/inside.txt"), 7);
    let got = trash(full, HOME, &olddir);
    let outcome = got.result.unwrap();
    assert!(got.bin.world.host.find(&olddir).is_none());
    let trashed = in_trash("files/olddir");
    assert_eq!(got.bin.world.host.find(&trashed).unwrap().kind, Kind::Dir);
    assert!(got.bin.world.host.find(&format!("{trashed}/inside.txt")).is_some());
    assert!(got.bin.world.host.find(&format!("{olddir}/inside.txt")).is_none());
    assert_eq!(outcome.trashed_to, trashed);
    assert!(outcome.bytes > 0);
}

#[test]
fn test_trashed_file_lands_in_trash_with_valid_trashinfo() {
    let target = home("stuff/junk.txt");
    let got = trash(bin("nothing"), &home("stuff"), &target);
    let outcome = got.result.unwrap();
    assert_eq!(outcome.trashed_to, in_trash("files/junk.txt"));
    assert_eq!(outcome.bytes, 4096);
    assert!(got.bin.world.host.find(&target).is_none());
    let info = &got.bin.files[0];
    assert_eq!(info.0, in_trash("info/junk.txt.trashinfo"));
    let lines: Vec<&str> = info.1.lines().collect();
    assert_eq!(lines[0], "[Trash Info]");
    assert_eq!(lines[1], format!("Path={target}"));
    let date = lines[2].strip_prefix("DeletionDate=").unwrap();
    assert!(date.parse::<jiff::civil::DateTime>().is_ok(), "{date}");
    assert_eq!(lines.len(), 3);
}

fn percent_decode(s: &str) -> String {
    let bytes = s.as_bytes();
    let mut out = Vec::new();
    let mut i = 0;
    while i < bytes.len() {
        if bytes[i] == b'%' && i + 2 < bytes.len() {
            out.push(u8::from_str_radix(&s[i + 1..i + 3], 16).unwrap());
            i += 3;
        } else {
            out.push(bytes[i]);
            i += 1;
        }
    }
    String::from_utf8(out).unwrap()
}

/// The path and the date in a file beside the trash.
fn parse_trashinfo(bin: &Bin, path: &str) -> (String, String) {
    let text = &bin.files.iter().find(|f| f.0 == path).unwrap().1;
    let mut lines = text.lines();
    assert_eq!(lines.next().unwrap(), "[Trash Info]");
    let encoded = lines.next().unwrap().strip_prefix("Path=").unwrap();
    let deletion = lines.next().unwrap().strip_prefix("DeletionDate=").unwrap();
    (percent_decode(encoded), deletion.to_string())
}

#[test]
fn what_is_beside_a_trashed_path_says_when() {
    let mut full = bin("nothing");
    let path = home("stuff/dated.txt");
    full.world.file(&path, 1);
    let got = trash(full, HOME, &path);
    got.result.unwrap();
    let (_, date) = parse_trashinfo(&got.bin, &in_trash("info/dated.txt.trashinfo"));
    let shape: String = date.chars().map(|c| if c.is_ascii_digit() { '#' } else { c }).collect();
    assert_eq!(shape, "####-##-##T##:##:##");
    assert!(got.records[0].ts.ends_with('Z'));
}

#[test]
fn test_collision_appends_numeric_suffix() {
    let mut b = bin("nothing");
    let target_a = home("stuff_a/junk.txt");
    let target_b = home("stuff_b/junk.txt");
    b.world.file(&target_a, 1);
    b.world.file(&target_b, 1);

    let first = trash(b, HOME, &target_a);
    assert_eq!(first.result.unwrap().trashed_to, in_trash("files/junk.txt"));
    let second = trash(first.bin, HOME, &target_b);

    assert_eq!(second.result.unwrap().trashed_to, in_trash("files/junk.txt.2"));
    let (decoded_a, _) = parse_trashinfo(&second.bin, &in_trash("info/junk.txt.trashinfo"));
    let (decoded_b, _) = parse_trashinfo(&second.bin, &in_trash("info/junk.txt.2.trashinfo"));
    assert_eq!(decoded_a, target_a);
    assert_eq!(decoded_b, target_b);
}

#[test]
fn the_first_free_name_is_taken() {
    let mut b = bin("nothing");
    b.files.push((in_trash("info/junk.txt.trashinfo"), String::new()));
    b.files.push((in_trash("info/junk.txt.2.trashinfo"), String::new()));
    let got = trash(b, &home("stuff"), &home("stuff/junk.txt"));
    assert_eq!(got.result.unwrap().trashed_to, in_trash("files/junk.txt.3"));
}

#[test]
fn test_journal_records_successful_trash() {
    let got = trash(bin("nothing"), &home("stuff"), &home("stuff/junk.txt"));
    assert_eq!(got.records.len(), 1);
    assert_eq!(got.records[0].cmd, "analyze");
    assert_eq!(got.records[0].rule, "analyze.trash");
    assert_eq!(got.records[0].action, "trash");
    assert_eq!(got.records[0].outcome, "ok");
    assert_eq!(got.records[0].bytes_freed, 4096);
}

#[test]
fn test_deny_listed_path_is_refused() {
    let mut b = bin("nothing");
    let target = home(".ssh/id_rsa");
    b.world.file(&target, 512);
    let got = trash(b, HOME, &target);
    let reason = got.result.unwrap_err();
    assert!(reason.starts_with("refused:"), "{reason}");
    assert_eq!(got.records[0].outcome, reason);
    assert_eq!(got.records[0].paths, Some(vec![target.clone()]));
    assert!(got.bin.world.host.find(&target).is_some());
}

#[test]
fn test_path_outside_start_prefix_is_refused() {
    let mut b = bin("nothing");
    let target = home("other/file.txt");
    b.world.file(&target, 512);
    let got = trash(b, &home("stuff"), &target);
    assert!(got.result.unwrap_err().starts_with("refused:"));
    assert!(got.bin.world.host.find(&target).is_some());
}

#[test]
fn trashing_across_filesystems_is_refused() {
    let mut b = bin("nothing");
    b.trash_dev = 2;
    let got = trash(b, &home("stuff"), &home("stuff/junk.txt"));
    assert_eq!(
        got.result.unwrap_err(),
        "can't trash across filesystems — delete permanently from the TUI instead"
    );
    assert_eq!(got.records[0].outcome, "refused: can't trash across filesystems");
}

#[test]
fn what_stops_a_move_is_told_and_nothing_is_left_behind() {
    let info = in_trash("info/junk.txt.trashinfo");
    let files = in_trash("files");
    let path = home("stuff/junk.txt");
    for (fails, why) in [
        ("look", "no mounts".to_string()),
        ("Trash/files", format!("failed to create {files}: read-only")),
        ("Trash/info", format!("failed to create {}: read-only", in_trash("info"))),
        ("stat", format!("failed to stat {path}: gone")),
        ("claim", format!("failed to create {info}: read-only")),
        ("write", format!("failed to write {info}: full")),
        ("rename", format!("failed to move {path} to {files}/junk.txt: busy")),
    ] {
        let got = trash(bin(fails), &home("stuff"), &path);
        assert_eq!(got.result.unwrap_err(), why);
        assert!(got.bin.files.is_empty(), "{fails} left {:?}", got.bin.files);
        assert!(got.bin.world.host.find(&path).is_some());
        assert!(got.records.is_empty());
    }
}

#[test]
fn the_trash_is_below_the_home_directory() {
    assert_eq!(trash_dirs(&ctx()), (in_trash("files"), in_trash("info")));
    let w = bin("nothing").world;
    assert_eq!(refusal(&home("stuff"), &home("stuff/junk.txt"), &env(), &w.host), None);
    assert_eq!(record("/p", "run", 7, "ok").bytes_freed, 7);
}

fn dir(name: &str, bytes: u64, files: u64) -> DirNode {
    DirNode {
        path: name.to_string(),
        name: name.to_string(),
        bytes,
        files,
        mtime: 0,
        children: Vec::new(),
        truncated_depth: false,
    }
}

fn scan_result(root: DirNode, top_files: Vec<LargeFile>) -> ScanResult {
    ScanResult {
        root,
        dirs_visited: 0,
        complete: true,
        skipped_mounts: Vec::new(),
        warnings: Vec::new(),
        top_files,
    }
}

#[test]
fn test_render_human_typical_tree_with_btrfs_unallocated() {
    let target = "/home/user/data";
    let root = DirNode {
        path: target.to_string(),
        name: "data".to_string(),
        bytes: 32768,
        files: 3,
        mtime: 0,
        children: vec![dir("big", 24576, 2), dir("small", 8192, 1)],
        truncated_depth: false,
    };
    let result = scan_result(
        root,
        vec![
            large_file("/home/user/data/big/file1.bin", 16384),
            large_file("/home/user/data/small/file2.bin", 8192),
        ],
    );
    let totals = DiskTotals {
        total: 50 * 1024 * 1024 * 1024,
        used: 10 * 1024 * 1024 * 1024,
        available: 40 * 1024 * 1024 * 1024,
        fs_kind: "btrfs".to_string(),
        btrfs_unallocated: Some(5 * 1024 * 1024 * 1024),
    };

    let rendered = render_human(target, &result, &totals);

    let expected = "\
/home/user/data — 32.0 KiB in 3 files
Disk (btrfs): 10.0 GiB used of 50.0 GiB, 40.0 GiB available, 5.0 GiB unallocated

Directories:
  big    24.0 KiB   75.0%   ###############
  small  8.0 KiB    25.0%   #####

Largest files:
  16.0 KiB   big/file1.bin
  8.0 KiB    small/file2.bin";
    assert_eq!(rendered, expected);
}

#[test]
fn a_scan_is_told_as_it_is_rendered() {
    let result = scan_result(dir("base", 10, 1), Vec::new());
    let totals = disk_totals(&ctx(), &World::new().host, HOME, blocks());
    let told = report("/base", &result, &totals).rendered;
    assert_eq!(told, render_human("/base", &result, &totals));
    assert!(told.contains("10 B"), "{told}");
}

#[test]
fn test_render_human_empty_dir_shows_none_for_both_sections() {
    let target = "/home/user/empty";
    let root = dir("empty", 0, 0);
    let result = scan_result(root, Vec::new());
    let totals = DiskTotals {
        total: 1024,
        used: 512,
        available: 512,
        fs_kind: "ext4".to_string(),
        btrfs_unallocated: None,
    };

    let rendered = render_human(target, &result, &totals);

    let expected = "\
/home/user/empty — 0 B in 0 files
Disk (ext4): 512 B used of 1.0 KiB, 512 B available

Directories: (none)

Largest files: (none)";
    assert_eq!(rendered, expected);
}

#[test]
fn test_render_human_zero_byte_root_does_not_panic_on_division() {
    // root.bytes == 0 while a child still has bytes is not something a real
    // scan produces (children sum to the root), but it is exactly the shape
    // that would divide by zero computing that child's percentage.
    let target = "/home/user/zeros";
    let root = DirNode {
        path: target.to_string(),
        name: "zeros".to_string(),
        bytes: 0,
        files: 0,
        mtime: 0,
        children: vec![dir("child", 4096, 1)],
        truncated_depth: false,
    };
    let result = scan_result(root, Vec::new());
    let totals = DiskTotals {
        total: 1024,
        used: 0,
        available: 1024,
        fs_kind: "ext4".to_string(),
        btrfs_unallocated: None,
    };

    let rendered = render_human(target, &result, &totals);

    let expected = "\
/home/user/zeros — 0 B in 0 files
Disk (ext4): 0 B used of 1.0 KiB, 1.0 KiB available

Directories:
  child  4.0 KiB    0.0%    #

Largest files: (none)";
    assert_eq!(rendered, expected);
}

#[test]
fn only_fifteen_directories_and_ten_files_are_shown() {
    let children: Vec<DirNode> =
        (0..20u64).map(|i| dir(&format!("d{i:02}"), 1024 * (i / 2), 1)).collect();
    let mut root = dir("root", 100 * 1024, 20);
    root.children = children;
    let files = (0..20u64).map(|i| large_file(&format!("/x/f{i}"), 100 - i)).collect();
    let totals = DiskTotals {
        total: 1,
        used: 1,
        available: 0,
        fs_kind: "ext4".to_string(),
        btrfs_unallocated: None,
    };
    let out = render_human("/x", &scan_result(root, files), &totals);
    let dirs: Vec<&str> = out.lines().filter(|l| l.starts_with("  d")).collect();
    assert_eq!(dirs.len(), 15);
    assert!(dirs[0].starts_with("  d18"), "{}", dirs[0]);
    assert!(dirs[1].starts_with("  d19"));
    assert_eq!(out.lines().filter(|l| l.starts_with("  ") && l.contains(" f")).count(), 10);
}

#[test]
fn targets_have_to_be_there_and_inside() {
    let mut w = World::new();
    w.dir(&home("data"));
    w.dir("/elsewhere");
    let c = ctx();
    assert_eq!(validated_target(&c, &w.host, None).unwrap(), HOME);
    assert_eq!(validated_target(&c, &w.host, Some(home("data"))).unwrap(), home("data"));
    assert_eq!(
        validated_target(&c, &w.host, Some("/nope".to_string())).unwrap_err(),
        "/nope: no such file or directory"
    );
    let outside = validated_target(&c, &w.host, Some("/elsewhere".to_string())).unwrap_err();
    assert!(outside.starts_with("path is outside the analyzable area"), "{outside}");
}

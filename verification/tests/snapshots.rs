use badger::config::Config;
use badger::ctx::Ctx;
use badger::host::{Entry, Host, Kind};
use badger::runner::{CmdOutput, FakeRunner};
use badger::safety::protected::SafetyEnv;
use badger::snapper::{
    booted_snapshot_from_cmdline, default_snapshot_from_btrfs, limine_sync_state, list_configs,
    list_snapshots, protected_snapshot_numbers, LimineState, SnapType,
};

/// A machine made up for a test: every path has its parents, and a directory
/// lists what was put in it.
struct World {
    host: Host,
}

const NOW: i64 = 1_700_000_000_000_000_000;
const DAY: i64 = 86_400_000_000_000;

impl World {
    fn new() -> World {
        let mut host = Host::new();
        host.now = NOW;
        let mut world = World { host };
        world.dir(HOME);
        world
    }

    fn add(&mut self, path: &str, kind: Kind, size: u64, text: Option<&str>) {
        if self.host.find(path).is_some() {
            return;
        }
        if let Some((parent, name)) = path.rsplit_once('/') {
            let parent = if parent.is_empty() { "/" } else { parent };
            if path != "/" {
                self.add(parent, Kind::Dir, 0, None);
                for entry in self.host.entries.iter_mut() {
                    if entry.path == parent {
                        entry.names.get_or_insert_with(Vec::new).push(name.to_string());
                    }
                }
            }
        }
        let ino = self.host.entries.len() as u64 + 1;
        self.host.entries.push(Entry {
            path: path.to_string(),
            kind,
            leads_to_dir: kind == Kind::Dir,
            leads_to_file: kind == Kind::File,
            names: if kind == Kind::Dir { Some(Vec::new()) } else { None },
            size,
            modified: Some(NOW),
            text: text.map(|t| t.to_string()),
            uid: 1000,
            dev: 1,
            ino,
        });
        self.host.resolved.push((path.to_string(), path.to_string()));
    }

    fn dir(&mut self, path: &str) {
        self.add(path, Kind::Dir, 0, None);
    }

    fn file(&mut self, path: &str, size: u64) {
        self.add(path, Kind::File, size, None);
    }

    fn text(&mut self, path: &str, contents: &str) {
        self.add(path, Kind::File, contents.len() as u64, Some(contents));
    }

    fn entry(&mut self, path: &str) -> &mut Entry {
        self.host.entries.iter_mut().find(|e| e.path == path).unwrap()
    }

    fn sized_dir(&mut self, path: &str, size: u64) {
        self.add(path, Kind::Dir, size, None);
        self.entry(path).size = size;
    }

    fn age(&mut self, path: &str, days: i64) {
        self.entry(path).modified = Some(NOW - days * DAY);
    }
}

const ROOT: &str = "/sandbox/root";
const HOME: &str = "/sandbox/root/home/user";

fn s(list: &[&str]) -> Vec<String> {
    list.iter().map(|x| x.to_string()).collect()
}

fn home(rel: &str) -> String {
    format!("{HOME}/{rel}")
}

fn ctx() -> Ctx {
    Ctx {
        root: ROOT.to_string(),
        home: HOME.to_string(),
        config_dir: "/sandbox/config".to_string(),
        state_dir: "/sandbox/state".to_string(),
        dry_run: false,
        debug: false,
        config: Config::default(),
        sandboxed: true,
        available_commands: None,
        fake_command_output: None,
    }
}

fn env() -> SafetyEnv {
    SafetyEnv {
        root: ROOT.to_string(),
        home: HOME.to_string(),
        mount_points: Vec::new(),
        euid: 1000,
    }
}

fn output(stdout: &str) -> CmdOutput {
    CmdOutput { success: true, stdout: stdout.to_string(), stderr: String::new() }
}

fn configs_of(stdout: &str) -> Vec<(String, String)> {
    let mut runner =
        FakeRunner::new().with(s(&["snapper", "list-configs"]), output(stdout));
    list_configs(&mut runner)
        .unwrap()
        .iter()
        .map(|c| (c.name.clone(), c.subvolume.clone()))
        .collect()
}

fn pair(name: &str, subvolume: &str) -> (String, String) {
    (name.to_string(), subvolume.to_string())
}

#[test]
fn test_list_configs_parses_realistic_table_with_two_configs() {
    assert_eq!(
        configs_of("Config | Subvolume\n-------+-----------\nroot   | /\nhome   | /home\n"),
        vec![pair("root", "/"), pair("home", "/home")]
    );
}

#[test]
fn test_list_configs_returns_empty_vec_for_empty_stdout() {
    assert!(configs_of("").is_empty());
}

#[test]
fn test_list_configs_parses_table_with_irregular_spacing() {
    assert_eq!(
        configs_of("Config|Subvolume\n---+---\nroot|   /\n   home    |/home   \n"),
        vec![pair("root", "/"), pair("home", "/home")]
    );
}

fn snapper_says(json: &str) -> FakeRunner {
    FakeRunner::new().with(s(&["snapper", "-c", "root", "--jsonout", "list"]), output(json))
}

#[test]
fn test_list_snapshots_parses_single_pre_post_and_defaulted_entries_with_extra_fields() {
    let json = r#"{
        "root": [
            {"number": 1, "type": "single", "date": "2024-01-01 00:00:00", "description": "single snap"},
            {"number": 2, "type": "pre", "date": "2024-01-02 00:00:00", "description": "before update", "cleanup": "number"},
            {"number": 3, "type": "post", "pre-number": 2, "date": "2024-01-02 00:05:00", "description": "after update"},
            {"number": 4, "date": "2024-01-03 00:00:00"}
        ]
    }"#;
    let snapshots = list_snapshots(&mut snapper_says(json), "root").unwrap();
    assert_eq!(snapshots.len(), 4);

    assert_eq!(snapshots[0].number, 1);
    assert_eq!(snapshots[0].snap_type, SnapType::Single);
    assert_eq!(snapshots[0].pre_number, None);
    assert_eq!(snapshots[0].date.as_deref(), Some("2024-01-01 00:00:00"));
    assert_eq!(snapshots[0].description, "single snap");

    assert_eq!(snapshots[1].number, 2);
    assert_eq!(snapshots[1].snap_type, SnapType::Pre);
    assert_eq!(snapshots[1].pre_number, None);
    assert_eq!(snapshots[1].date.as_deref(), Some("2024-01-02 00:00:00"));
    assert_eq!(snapshots[1].description, "before update");

    assert_eq!(snapshots[2].number, 3);
    assert_eq!(snapshots[2].snap_type, SnapType::Post);
    assert_eq!(snapshots[2].pre_number, Some(2));
    assert_eq!(snapshots[2].date.as_deref(), Some("2024-01-02 00:05:00"));
    assert_eq!(snapshots[2].description, "after update");

    assert_eq!(snapshots[3].number, 4);
    assert_eq!(snapshots[3].snap_type, SnapType::Single);
    assert_eq!(snapshots[3].pre_number, None);
    assert_eq!(snapshots[3].date.as_deref(), Some("2024-01-03 00:00:00"));
    assert_eq!(snapshots[3].description, "");
}

#[test]
fn test_list_snapshots_skips_entry_missing_number() {
    let json = r#"{
        "root": [
            {"type": "single", "description": "no number here"},
            {"number": 10, "description": "valid"}
        ]
    }"#;
    let snapshots = list_snapshots(&mut snapper_says(json), "root").unwrap();
    assert_eq!(snapshots.len(), 1);
    assert_eq!(snapshots[0].number, 10);
}

#[test]
fn test_list_snapshots_errors_on_malformed_json() {
    assert!(list_snapshots(&mut snapper_says("not json"), "root").is_err());
}

#[test]
fn test_list_snapshots_errors_when_no_array_for_config() {
    let json = r#"{"other-config": [{"number": 1}]}"#;
    assert!(list_snapshots(&mut snapper_says(json), "root").is_err());
}

#[test]
fn a_failed_listing_is_an_error() {
    assert!(list_snapshots(&mut FakeRunner::new(), "root").is_err());
    assert!(list_configs(&mut FakeRunner::new()).is_err());
}

fn with_cmdline(text: &str) -> World {
    let mut w = World::new();
    w.text(&format!("{ROOT}/proc/cmdline"), text);
    w
}

fn booted(text: &str) -> Option<u64> {
    booted_snapshot_from_cmdline(&ctx(), &with_cmdline(text).host)
}

#[test]
fn test_booted_snapshot_from_cmdline_at_snapshots_no_leading_slash() {
    assert_eq!(booted("BOOT_IMAGE=/vmlinuz rw subvol=@snapshots/5/snapshot quiet\n"), Some(5));
}

#[test]
fn test_booted_snapshot_from_cmdline_at_snapshots_leading_slash() {
    assert_eq!(booted("BOOT_IMAGE=/vmlinuz rw subvol=/@snapshots/5/snapshot quiet\n"), Some(5));
}

#[test]
fn test_booted_snapshot_from_cmdline_dot_snapshots_no_leading_slash() {
    assert_eq!(booted("BOOT_IMAGE=/vmlinuz rw subvol=.snapshots/5/snapshot quiet\n"), Some(5));
}

#[test]
fn test_booted_snapshot_from_cmdline_dot_snapshots_leading_slash() {
    assert_eq!(booted("BOOT_IMAGE=/vmlinuz rw subvol=/.snapshots/5/snapshot quiet\n"), Some(5));
}

#[test]
fn test_booted_snapshot_from_cmdline_none_when_no_snapshot_pattern() {
    assert_eq!(booted("BOOT_IMAGE=/vmlinuz rw subvol=@ quiet\n"), None);
}

#[test]
fn test_booted_snapshot_from_cmdline_none_when_file_missing() {
    assert_eq!(booted_snapshot_from_cmdline(&ctx(), &World::new().host), None);
}

#[test]
fn test_booted_snapshot_from_cmdline_none_when_only_subvolid_present() {
    assert_eq!(booted("BOOT_IMAGE=/vmlinuz rw rootflags=subvolid=256 quiet\n"), None);
}

#[test]
fn test_booted_snapshot_from_cmdline_ignores_snapshot_like_substring_not_anchored_to_subvol() {
    assert_eq!(
        booted(
            "BOOT_IMAGE=/vmlinuz rw rootflags=subvolid=256 \
             initrd=/boot/snapshots/5/snapshot-initrd quiet\n"
        ),
        None
    );
}

fn btrfs_says(stdout: &str) -> FakeRunner {
    FakeRunner::new().with(s(&["btrfs", "subvolume", "get-default", "/"]), output(stdout))
}

#[test]
fn test_default_snapshot_from_btrfs_parses_snapshot_number() {
    let mut runner = btrfs_says("ID 344 gen 89201 top level 5 path @snapshots/5/snapshot\n");
    assert_eq!(default_snapshot_from_btrfs(&mut runner), Some(5));
}

#[test]
fn test_default_snapshot_from_btrfs_none_for_non_snapshot_default() {
    let mut runner = btrfs_says("ID 5 gen 100 top level 5 path <FS_TREE>\n");
    assert_eq!(default_snapshot_from_btrfs(&mut runner), None);
}

#[test]
fn test_default_snapshot_from_btrfs_none_when_command_errors() {
    assert_eq!(default_snapshot_from_btrfs(&mut FakeRunner::new()), None);
}

fn protected(world: World, runner: FakeRunner) -> Option<Vec<u64>> {
    let mut runner = runner;
    let mut got = protected_snapshot_numbers(&ctx(), &world.host, &mut runner)?;
    got.sort();
    Some(got)
}

#[test]
fn test_protected_snapshot_numbers_none_when_neither_source_resolves() {
    assert_eq!(protected(World::new(), FakeRunner::new()), None);
}

#[test]
fn test_protected_snapshot_numbers_cmdline_only() {
    let world = with_cmdline("subvol=@snapshots/5/snapshot\n");
    assert_eq!(protected(world, FakeRunner::new()), Some(vec![5]));
}

#[test]
fn test_protected_snapshot_numbers_btrfs_only() {
    let runner = btrfs_says("ID 344 gen 89201 top level 5 path @snapshots/7/snapshot\n");
    assert_eq!(protected(World::new(), runner), Some(vec![7]));
}

#[test]
fn test_protected_snapshot_numbers_both_equal() {
    let world = with_cmdline("subvol=@snapshots/5/snapshot\n");
    let runner = btrfs_says("ID 344 gen 89201 top level 5 path @snapshots/5/snapshot\n");
    assert_eq!(protected(world, runner), Some(vec![5]));
}

#[test]
fn test_protected_snapshot_numbers_both_different_mid_rollback() {
    let world = with_cmdline("subvol=@snapshots/5/snapshot\n");
    let runner = btrfs_says("ID 344 gen 89201 top level 5 path @snapshots/7/snapshot\n");
    assert_eq!(protected(world, runner), Some(vec![5, 7]));
}

fn limine(enabled: Option<&str>, active: Option<&str>) -> LimineState {
    let mut runner = FakeRunner::new();
    let unit = "limine-snapper-sync.service";
    if let Some(text) = enabled {
        runner = runner.with(s(&["systemctl", "is-enabled", unit]), output(text));
    }
    if let Some(text) = active {
        runner = runner.with(s(&["systemctl", "is-active", unit]), output(text));
    }
    limine_sync_state(&mut runner)
}

#[test]
fn test_limine_sync_state_present_and_active() {
    assert_eq!(
        limine(Some("enabled\n"), Some("active\n")),
        LimineState::Present { active: true }
    );
}

#[test]
fn test_limine_sync_state_present_and_inactive() {
    assert_eq!(
        limine(Some("disabled\n"), Some("inactive\n")),
        LimineState::Present { active: false }
    );
}

#[test]
fn test_limine_sync_state_absent_when_not_found_skips_is_active() {
    assert_eq!(limine(Some("not-found\n"), None), LimineState::Absent);
}

#[test]
fn test_limine_sync_state_absent_when_is_enabled_command_errors() {
    assert_eq!(limine(None, None), LimineState::Absent);
}

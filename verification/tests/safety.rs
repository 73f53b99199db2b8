use badger::config::Config;
use badger::ctx::Ctx;
use badger::exec::{Effector, Hands, RealEffector, Sight};
use badger::exec::report_outcome;
use badger::host::{Entry, Host, Kind};
use badger::privilege::{
    deleted_result, helper_main, helper_permitted, helper_validate_op, refused_result,
    safety_env_from_manifest, HelperHands, HelperOp, HelperResult, Manifest,
};
use badger::rules::registry;
use badger::runner::{CmdOutput, FakeRunner};
use badger::safety::deleter::{Action as Step, DeleteReport, Deleter, Metadata};
use badger::safety::journal::{gather, record_lines, AuditLog, Journal, MemoryLog, Record};
use badger::safety::protected::{
    parse_mountinfo, unescape_octal, validate_deletable, Refusal, SafetyEnv, Tier,
};
use badger::safety::whitelist::{parse, Pattern};

/// A machine made up for a test: every path has its parents, and a directory
/// lists what was put in it.
struct World {
    host: Host,
}

const NOW: i64 = 1_700_000_000_000_000_000;
const DAY: i64 = 86_400_000_000_000;

impl World {
    fn new() -> World {
        let mut host = Host::new();
        host.now = NOW;
        let mut world = World { host };
        world.dir(HOME);
        world
    }

    fn add(&mut self, path: &str, kind: Kind, size: u64, text: Option<&str>) {
        if self.host.find(path).is_some() {
            return;
        }
        if let Some((parent, name)) = path.rsplit_once('/') {
            let parent = if parent.is_empty() { "/" } else { parent };
            if path != "/" {
                self.add(parent, Kind::Dir, 0, None);
                for entry in self.host.entries.iter_mut() {
                    if entry.path == parent {
                        entry.names.get_or_insert_with(Vec::new).push(name.to_string());
                    }
                }
            }
        }
        let ino = self.host.entries.len() as u64 + 1;
        self.host.entries.push(Entry {
            path: path.to_string(),
            kind,
            leads_to_dir: kind == Kind::Dir,
            leads_to_file: kind == Kind::File,
            names: if kind == Kind::Dir { Some(Vec::new()) } else { None },
            size,
            modified: Some(NOW),
            text: text.map(|t| t.to_string()),
            uid: 1000,
            dev: 1,
            ino,
        });
        self.host.resolved.push((path.to_string(), path.to_string()));
    }

    fn dir(&mut self, path: &str) {
        self.add(path, Kind::Dir, 0, None);
    }

    fn file(&mut self, path: &str, size: u64) {
        self.add(path, Kind::File, size, None);
    }

    fn text(&mut self, path: &str, contents: &str) {
        self.add(path, Kind::File, contents.len() as u64, Some(contents));
    }

    fn entry(&mut self, path: &str) -> &mut Entry {
        self.host.entries.iter_mut().find(|e| e.path == path).unwrap()
    }

    fn sized_dir(&mut self, path: &str, size: u64) {
        self.add(path, Kind::Dir, size, None);
        self.entry(path).size = size;
    }

    fn age(&mut self, path: &str, days: i64) {
        self.entry(path).modified = Some(NOW - days * DAY);
    }
}

const ROOT: &str = "/sandbox/root";
const HOME: &str = "/sandbox/root/home/user";

fn s(list: &[&str]) -> Vec<String> {
    list.iter().map(|x| x.to_string()).collect()
}

fn home(rel: &str) -> String {
    format!("{HOME}/{rel}")
}

fn ctx() -> Ctx {
    Ctx {
        root: ROOT.to_string(),
        home: HOME.to_string(),
        config_dir: "/sandbox/config".to_string(),
        state_dir: "/sandbox/state".to_string(),
        dry_run: false,
        debug: false,
        config: Config::default(),
        sandboxed: true,
        available_commands: None,
        fake_command_output: None,
    }
}

fn env() -> SafetyEnv {
    SafetyEnv {
        root: ROOT.to_string(),
        home: HOME.to_string(),
        mount_points: Vec::new(),
        euid: 1000,
    }
}

fn output(stdout: &str) -> CmdOutput {
    CmdOutput { success: true, stdout: stdout.to_string(), stderr: String::new() }
}

/// A disk held in memory, whose deletions go the way real ones do.
struct Disk {
    world: World,
    helper: Result<Vec<HelperResult>, String>,
}

impl Disk {
    fn new(world: World) -> Disk {
        Disk { world, helper: Err("no helper".to_string()) }
    }

    fn has(&self, path: &str) -> bool {
        self.world.host.find(path).is_some()
    }
}

fn parent_of(path: &str) -> String {
    path.rsplit_once('/').unwrap().0.to_string()
}

fn name_of(path: &str) -> String {
    path.rsplit_once('/').unwrap().1.to_string()
}

fn take_away(world: &mut World, path: &str) -> Option<String> {
    world.host.entries.retain(|e| e.path != path);
    let parent = world.entry(&parent_of(path));
    parent.names.as_mut().unwrap().retain(|n| *n != name_of(path));
    None
}

fn delete_tree(world: &mut World, path: &str) -> DeleteReport {
    let (mut deleter, mut next) = Deleter::start(path);
    loop {
        next = match next {
            Step::Stat(p) => {
                let found = match world.host.find(&p) {
                    Some(e) => Ok(Metadata {
                        is_dir: e.kind == Kind::Dir,
                        dev: e.dev,
                        blocks: e.size / 512,
                    }),
                    None => Err("No such file or directory".to_string()),
                };
                deleter.on_stat(found)
            }
            Step::List(p) => {
                let names = world.host.list(&p).unwrap();
                deleter.on_list(Ok(names.iter().map(|n| Ok(format!("{p}/{n}"))).collect()))
            }
            Step::Unlink(p) => deleter.on_unlink(take_away(world, &p)),
            Step::RemoveDir(p) => {
                assert!(world.host.list(&p).unwrap().is_empty(), "{p} is not empty");
                deleter.on_remove_dir(take_away(world, &p))
            }
            Step::Done => return deleter.report,
        };
    }
}

impl Hands for Disk {
    fn look(&mut self, _path: &str, _allowed: &Vec<String>) -> Result<Sight, String> {
        Ok(Sight { mount_points: Vec::new(), euid: 1000, host: self.world.host.clone() })
    }

    fn delete_tree(&mut self, path: &str) -> DeleteReport {
        delete_tree(&mut self.world, path)
    }

    fn ask_helper(&mut self, _manifest: &Manifest) -> Result<Vec<HelperResult>, String> {
        self.helper.clone()
    }
}

#[test]
fn test_parse_mountinfo_extracts_mount_points() {
    let text = "\
36 35 98:0 / / rw,noatime master:1 - ext4 /dev/root rw,errors=remount-ro
25 30 0:24 / /proc rw,nosuid,nodev,noexec,relatime shared:5 - proc proc rw
30 25 0:5 / /home/user/My\\040Files rw,relatime shared:2 - ext4 /dev/sda1 rw
";
    let mounts = parse_mountinfo(text);
    assert!(mounts.contains(&"/".to_string()));
    assert!(mounts.contains(&"/proc".to_string()));
    assert!(mounts.contains(&"/home/user/My Files".to_string()));
}

#[test]
fn octal_escapes_are_undone() {
    assert_eq!(unescape_octal("a\\040b"), "a b");
    assert_eq!(unescape_octal("caf\\303\\251"), "café");
    assert_eq!(unescape_octal("/mnt/größe"), "/mnt/größe");
    assert_eq!(unescape_octal("tail\\04"), "tail\\04");
    assert_eq!(unescape_octal("\\377"), "\u{fffd}");
}

fn check(world: &World, path: &str, allowed: &[&str], tier: Tier) -> Result<(), Refusal> {
    validate_deletable(path, &s(allowed), tier, &env(), &world.host)
}

#[test]
fn each_refusal_has_its_reason() {
    let mut w = World::new();
    let cache = home(".cache/app");
    w.dir(&cache);
    w.file(&home(".ssh/id_rsa"), 10);
    let base = home(".cache");
    assert_eq!(check(&w, &cache, &[&base], Tier::User), Ok(()));
    assert!(matches!(
        check(&w, &home(".cache/none"), &[&base], Tier::User),
        Err(Refusal::Uninspectable(_))
    ));
    assert_eq!(
        check(&w, &home(".ssh/id_rsa"), &[HOME], Tier::User),
        Err(Refusal::DenyListed)
    );
    assert_eq!(
        check(&w, &cache, &[&home(".local")], Tier::User),
        Err(Refusal::OutsidePrefix)
    );
    w.entry(&cache).uid = 0;
    assert_eq!(check(&w, &cache, &[&base], Tier::User), Err(Refusal::NotOwned));
    assert_eq!(check(&w, &cache, &[&base], Tier::System), Ok(()));
}

#[test]
fn mount_points_and_shallow_paths_are_refused() {
    let mut w = World::new();
    let cache = home(".cache/app");
    w.dir(&cache);
    w.dir(&home("build"));
    let mut e = env();
    e.mount_points = vec![cache.clone()];
    let base = s(&[&home(".cache")]);
    assert_eq!(
        validate_deletable(&cache, &base, Tier::User, &e, &w.host),
        Err(Refusal::MountPoint)
    );
    assert_eq!(check(&w, &home("build"), &[HOME], Tier::User), Err(Refusal::TooShallow));
    for r in [
        Refusal::DenyListed,
        Refusal::SymlinkEscape,
        Refusal::OutsidePrefix,
        Refusal::TooShallow,
        Refusal::MountPoint,
        Refusal::NotOwned,
    ] {
        assert!(!r.message().is_empty());
    }
    assert!(Refusal::Uninspectable("gone".to_string()).message().contains("gone"));
}

#[test]
fn a_link_that_leads_elsewhere_is_refused() {
    let mut w = World::new();
    let link = home(".cache/link/sub");
    w.dir(&link);
    for pair in w.host.resolved.iter_mut() {
        if pair.0 == home(".cache/link") || pair.0 == link {
            pair.1 = "/elsewhere".to_string();
        }
    }
    let got = check(&w, &link, &[&home(".cache")], Tier::User);
    assert_eq!(got, Err(Refusal::SymlinkEscape));
}

// --------------------------------------------------------------- whitelist

#[test]
fn test_blank_lines_and_comments_are_skipped() {
    let wl = parse("\n# a comment\n   \n", "/home/user").unwrap();
    assert!(wl.raw_lines().is_empty());
}

#[test]
fn test_tilde_is_expanded_to_home() {
    let wl = parse("~/cache/*", "/home/user").unwrap();
    assert!(wl.matches("/home/user/cache/foo.tmp"));
    assert!(!wl.matches("/home/other/cache/foo.tmp"));
}

#[test]
fn test_glob_star_matches() {
    let wl = parse("/var/log/*.log", "/home/user").unwrap();
    assert!(wl.matches("/var/log/pacman.log"));
    assert!(!wl.matches("/var/log/pacman.log.old"));
}

#[test]
fn test_rule_entries_disable_by_id() {
    let wl = parse("rule:paccache\nrule: journal \n", "/home/user").unwrap();
    assert!(wl.rule_disabled("paccache"));
    assert!(wl.rule_disabled("journal"));
    assert!(!wl.rule_disabled("other"));
}

#[test]
fn test_invalid_glob_errors_with_line_number() {
    let err = match parse("~/ok/*\n[unterminated", "/home/user") {
        Ok(_) => panic!("an unterminated class is no pattern"),
        Err(e) => e,
    };
    assert!(err.message().contains('2'), "error was: {}", err.message());
}

#[test]
fn test_missing_file_yields_empty_whitelist() {
    let wl = parse("", "/home/user").unwrap();
    assert!(wl.raw_lines().is_empty());
    assert!(!wl.matches("/home/user/anything"));
}

#[test]
fn several_patterns_are_all_heeded() {
    let wl = parse("~/a\nrule:x\n/b/*\n", "/home/user").unwrap();
    assert_eq!(wl.raw_lines(), &s(&["~/a", "/b/*"]));
    assert!(wl.rule_disabled("x"));
    assert!(wl.matches("/home/user/a"));
    assert!(wl.matches("/b/c"));
    assert!(!wl.matches("/c"));
}

#[test]
fn a_single_pattern_can_be_compiled() {
    let p = Pattern::new("*.part").unwrap();
    assert!(p.matches("a.part"));
    assert!(!p.matches("a.txt"));
    assert!(Pattern::new("[broken").is_none());
}

// ----------------------------------------------------------------- journal

#[test]
fn test_record_now_stamps_a_parseable_timestamp() {
    let record = Record::now(
        "run-1".to_string(),
        "clean".to_string(),
        "paccache".to_string(),
        "delete".to_string(),
        None,
        None,
        false,
        false,
        0,
        "ok".to_string(),
    );
    record.ts.parse::<jiff::Timestamp>().unwrap();
    assert_eq!(record.rule, "paccache");
}

#[test]
fn a_record_says_when_it_was_made() {
    let ts = sample("run-1").ts;
    let second: String =
        ts[..19].chars().map(|c| if c.is_ascii_digit() { '#' } else { c }).collect();
    assert_eq!(second, "####-##-##T##:##:##");
    let rest = ts[19..].strip_suffix('Z').unwrap();
    let digits = rest.strip_prefix('.').unwrap_or(rest);
    assert!(digits.len() <= 9 && digits.chars().all(|c| c.is_ascii_digit()), "{ts}");
    assert_eq!(rest.is_empty(), digits.is_empty());
}

#[test]
fn the_time_of_a_record_is_kept() {
    let mut first = sample("run-1");
    first.ts = "2001-02-03T04:05:06Z".to_string();
    let mut second = sample("run-2");
    second.ts = "2001-02-03T04:05:07.5Z".to_string();
    let mut log = MemoryLog::new();
    log.append(&first).unwrap();
    log.append(&second).unwrap();
    let times = |list: Vec<Record>| -> Vec<String> { list.into_iter().map(|r| r.ts).collect() };
    let kept = vec!["2001-02-03T04:05:06Z".to_string(), "2001-02-03T04:05:07.5Z".to_string()];
    assert_eq!(times(log.read_all().unwrap()), kept);
    let (read, skipped) = gather(vec![Some(first), None, Some(second)]);
    assert_eq!(skipped, 1);
    assert_eq!(times(read), kept);
}

#[test]
fn test_rotate_if_needed_leaves_small_file_alone() {
    let journal = Journal::new("/state");
    assert_eq!(journal.path, "/state/history.jsonl");
    assert_eq!(journal.rotate_if_needed(200, 1024 * 1024), None);
}

#[test]
fn test_rotate_if_needed_renames_oversized_file() {
    let journal = Journal::new("/state");
    assert_eq!(journal.rotate_if_needed(200, 1), Some("/state/history.1.jsonl".to_string()));
}

fn sample(run_id: &str) -> Record {
    Record::now(
        run_id.to_string(),
        "clean".to_string(),
        "paccache".to_string(),
        "cmd".to_string(),
        None,
        None,
        true,
        false,
        0,
        "ok".to_string(),
    )
}

#[test]
fn test_append_then_read_all_round_trips() {
    let mut log = MemoryLog::new();
    let record = sample("run-1");
    log.append(&record).unwrap();
    assert_eq!(log.read_all().unwrap(), vec![record]);
}

#[test]
fn test_append_twice_preserves_order() {
    let mut log = MemoryLog::new();
    log.append(&sample("run-1")).unwrap();
    log.append(&sample("run-2")).unwrap();
    let records = log.read_all().unwrap();
    assert_eq!(records.len(), 2);
    assert_eq!(records[0].run_id, "run-1");
    assert_eq!(records[1].run_id, "run-2");
}

#[test]
fn test_read_all_skips_corrupt_lines_but_counts_them() {
    let text = "{\"run\": \"run-1\"}\nnot json\n{\"run\": \"run-2\"}\n";
    let parsed = record_lines(text)
        .iter()
        .map(|line| {
            let value: serde_json::Value = serde_json::from_str(line).ok()?;
            Some(sample(value["run"].as_str()?))
        })
        .collect();
    let (records, skipped) = gather(parsed);
    assert_eq!(records.len(), 2);
    assert_eq!((records[0].run_id.as_str(), records[1].run_id.as_str()), ("run-1", "run-2"));
    assert_eq!(skipped, 1);
}

#[test]
fn blank_lines_hold_no_record() {
    assert_eq!(record_lines("a\n\n  \nb\n"), s(&["a", "b"]));
    assert!(record_lines("").is_empty());
}

// ----------------------------------------------------------------- deleter

#[test]
fn test_nonexistent_path_yields_single_error_and_no_files() {
    let mut w = World::new();
    let report = delete_tree(&mut w, &home("does-not-exist"));
    assert_eq!(report.errors.len(), 1);
    assert_eq!(report.files, 0);
}

#[test]
fn test_removes_nested_tree_with_correct_file_count_and_bytes() {
    let mut w = World::new();
    let root = home("tree");
    w.file(&format!("{root}/a/b/one.txt"), 1024);
    w.file(&format!("{root}/a/two.txt"), 512);
    let report = delete_tree(&mut w, &root);
    assert!(report.errors.is_empty(), "errors: {:?}", report.errors);
    assert_eq!(report.files, 2);
    assert_eq!(report.bytes_freed, 1536);
    assert!(w.host.find(&root).is_none());
    assert!(w.host.find(HOME).is_some());
}

#[test]
fn test_symlink_inside_tree_is_unlinked_but_target_survives() {
    let mut w = World::new();
    let root = home("tree");
    w.file(&home("outside.txt"), 512);
    let link = format!("{root}/link.txt");
    w.add(&link, Kind::Link, 0, None);
    w.entry(&link).leads_to_file = true;
    let report = delete_tree(&mut w, &root);
    assert!(report.errors.is_empty(), "errors: {:?}", report.errors);
    assert!(w.host.find(&root).is_none());
    assert!(w.host.find(&home("outside.txt")).is_some());
}

#[test]
fn test_top_level_symlink_to_dir_removes_only_the_link() {
    let mut w = World::new();
    w.file(&home("real-dir/keep.txt"), 512);
    let link = home("link-to-dir");
    w.add(&link, Kind::Link, 0, None);
    w.entry(&link).leads_to_dir = true;
    let report = delete_tree(&mut w, &link);
    assert!(report.errors.is_empty(), "errors: {:?}", report.errors);
    assert!(w.host.find(&link).is_none());
    assert!(w.host.find(&home("real-dir/keep.txt")).is_some());
}

#[test]
fn another_filesystem_is_left_alone() {
    let (mut d, first) = Deleter::start("/t");
    assert_eq!(first, Step::Stat("/t".to_string()));
    let dir = |dev: u64| Ok(Metadata { is_dir: true, dev, blocks: 8 });
    assert_eq!(d.on_stat(dir(1)), Step::List("/t".to_string()));
    let children = vec![Ok("/t/mnt".to_string()), Err("unreadable".to_string())];
    assert_eq!(d.on_list(Ok(children)), Step::Stat("/t/mnt".to_string()));
    assert_eq!(d.on_stat(dir(2)), Step::RemoveDir("/t".to_string()));
    assert_eq!(d.on_remove_dir(Some("Directory not empty".to_string())), Step::Done);
    assert_eq!(
        d.report.errors,
        vec![
            ("/t/mnt".to_string(), "skipped: crosses filesystem boundary".to_string()),
            ("/t".to_string(), "unreadable".to_string()),
            ("/t".to_string(), "Directory not empty".to_string()),
        ]
    );
    assert_eq!(
        report_outcome(&d.report).outcome,
        "error: /t/mnt: skipped: crosses filesystem boundary; /t: unreadable; \
         /t: Directory not empty"
    );
}

// ------------------------------------------------------------------ helper

fn op(world: &mut World, rule_id: &str, path: &str) -> HelperOp {
    let e = world.entry(path);
    HelperOp {
        rule_id: rule_id.to_string(),
        path: path.to_string(),
        expected_dev: e.dev,
        expected_ino: e.ino,
    }
}

fn validated(world: &World, op: &HelperOp) -> Result<(), String> {
    helper_validate_op(op, &registry(false), &env(), &world.host)
}

#[test]
fn test_safety_env_from_manifest_uses_manifest_home_for_denylist_check() {
    let mut w = World::new();
    let manifest_home = format!("{ROOT}/home/realuser");
    let ssh_key = format!("{manifest_home}/.ssh/id_rsa");
    w.file(&ssh_key, 6);
    let manifest = Manifest {
        run_id: "run-1".to_string(),
        root: ROOT.to_string(),
        home: manifest_home.clone(),
        ops: Vec::new(),
    };
    let e = safety_env_from_manifest(&manifest, Vec::new(), 0);
    assert_eq!(e.home, manifest_home, "must use manifest home, not $HOME");
    let o = op(&mut w, "user.thumbnails", &ssh_key);
    let err = helper_validate_op(&o, &registry(false), &e, &w.host).unwrap_err();
    assert_eq!(err, Refusal::DenyListed.message());
}

#[test]
fn test_helper_validate_op_refuses_dev_ino_mismatch() {
    let mut w = World::new();
    w.dir(&home(".cache/pip"));
    let mut o = op(&mut w, "dev.pip", &home(".cache/pip"));
    o.expected_ino += 1;
    let err = validated(&w, &o).unwrap_err();
    assert!(err.contains("dev/ino mismatch"), "error was: {err}");
}

#[test]
fn test_helper_validate_op_refuses_denylisted_path() {
    let mut w = World::new();
    w.file(&home(".ssh/id_rsa"), 6);
    let o = op(&mut w, "user.thumbnails", &home(".ssh/id_rsa"));
    assert_eq!(validated(&w, &o).unwrap_err(), Refusal::DenyListed.message());
}

#[test]
fn test_helper_validate_op_accepts_a_legitimately_safe_path() {
    let mut w = World::new();
    w.dir(&home(".cache/pip"));
    let o = op(&mut w, "dev.pip", &home(".cache/pip"));
    assert_eq!(validated(&w, &o), Ok(()));
}

#[test]
fn test_helper_validate_op_refuses_unknown_rule_id() {
    let mut w = World::new();
    let o = op(&mut w, "no.such.rule", HOME);
    let err = validated(&w, &o).unwrap_err();
    assert!(err.contains("unknown rule id"), "error was: {err}");
}

#[test]
fn helper_results_name_the_path_and_what_came_of_it() {
    let mut w = World::new();
    w.dir(&home(".cache/pip"));
    let o = op(&mut w, "dev.pip", &home(".cache/pip"));
    assert_eq!(refused_result(&o, "no").outcome, "refused: no");
    let report = DeleteReport { bytes_freed: 7, files: 1, errors: Vec::new() };
    let done = deleted_result(&o, &report);
    assert_eq!((done.bytes_freed, done.outcome.as_str()), (7, "ok"));
    let failed = DeleteReport {
        bytes_freed: 0,
        files: 0,
        errors: vec![("/p".to_string(), "denied".to_string())],
    };
    assert!(deleted_result(&o, &failed).outcome.contains("denied"));
}

/// A helper's hands on a disk held in memory.
struct Aide {
    world: World,
    told: Vec<HelperResult>,
    deaf: bool,
}

impl HelperHands for Aide {
    fn look(&mut self, _path: &str) -> Host {
        self.world.host.clone()
    }

    fn delete_tree(&mut self, path: &str) -> DeleteReport {
        delete_tree(&mut self.world, path)
    }

    fn tell(&mut self, result: &HelperResult) -> Result<(), String> {
        self.told.push(result.clone());
        if self.deaf { Err("broken pipe".to_string()) } else { Ok(()) }
    }
}

fn aid(euid: u32, deaf: bool) -> (Result<(), String>, Aide) {
    let mut w = World::new();
    w.file(&home(".cache/pip/wheel"), 512);
    w.file(&home(".cache/go-build/x"), 1024);
    let mut stale = op(&mut w, "dev.pip", &home(".cache/pip"));
    stale.expected_ino += 1;
    let ops = vec![stale, op(&mut w, "dev.go", &home(".cache/go-build"))];
    let manifest = Manifest {
        run_id: "run-1".to_string(),
        root: ROOT.to_string(),
        home: HOME.to_string(),
        ops,
    };
    let mut aide = Aide { world: w, told: Vec::new(), deaf };
    let r = helper_main(&mut aide, &manifest, Vec::new(), euid);
    (r, aide)
}

#[test]
fn the_helper_deletes_what_is_cleared_and_tells_of_all() {
    let (r, aide) = aid(0, false);
    assert_eq!(r, Ok(()));
    assert_eq!(aide.told.len(), 2);
    assert!(aide.told[0].outcome.contains("dev/ino mismatch"));
    assert_eq!((aide.told[1].bytes_freed, aide.told[1].outcome.as_str()), (1024, "ok"));
    assert!(aide.world.host.find(&home(".cache/pip")).is_some());
    assert!(aide.world.host.find(&home(".cache/go-build")).is_none());
}

#[test]
fn the_helper_works_for_root_alone() {
    let (r, aide) = aid(1000, false);
    assert_eq!(
        r.unwrap_err(),
        "badger __helper must run as root (invoked internally via sudo)"
    );
    assert!(aide.told.is_empty());
    assert_eq!(helper_permitted(0), Ok(()));
}

#[test]
fn the_helper_stops_when_nobody_listens() {
    let (r, aide) = aid(0, true);
    assert_eq!(r.unwrap_err(), "broken pipe");
    assert_eq!(aide.told.len(), 1);
    assert!(aide.world.host.find(&home(".cache/go-build")).is_some());
}

#[test]
fn the_disk_refuses_what_may_not_be_deleted() {
    let c = ctx();
    let mut w = World::new();
    w.file(&home(".ssh/id_rsa"), 6);
    let mut e = RealEffector::new(&c, FakeRunner::new(), Disk::new(w));
    let got = e.delete(false, &s(&[HOME]), &home(".ssh/id_rsa"), 6);
    assert_eq!(got.outcome, format!("refused: {}", Refusal::DenyListed.message()));
    assert!(e.hands().has(&home(".ssh/id_rsa")));
}

use badger::analyze::disk::DiskTotals;
use badger::commands::{clean, history, optimize, purge as purging, status, uninstall, whitelist};
use badger::commands::selection::{confirmed, demand, tick};
use badger::commands::shared::{intent, interactive, Intent};
use badger::commands::status::{Core, Gauges, Rate, Samples, StatusReport};
use badger::commands::whitelist::WhitelistAction;
use badger::config::Config;
use badger::ctx::Ctx;
use badger::exec::{DryRunEffector, Effector, Hands, Informed, RealEffector, Sight, Summary};
use badger::host::{Entry, Host, Kind};
use badger::item::{Candidate, Group, Risk};
use badger::output::Mode;
use badger::pkg::{Backend, InstalledPackage};
use badger::privilege::{HelperResult, Manifest};
use badger::purge;
use badger::rules::{Action, Applicability, CmdSpec, Commands, Detector, Rule};
use badger::runner::{CmdOutput, FakeRunner};
use badger::safety::deleter::{Action as Step, DeleteReport, Deleter, Metadata};
use badger::safety::journal::{AuditLog, MemoryLog, Record};
use badger::safety::protected::SafetyEnv;
use badger::safety::whitelist::parse;

/// A machine made up for a test: every path has its parents, and a directory
/// lists what was put in it.
struct World {
    host: Host,
}

const NOW: i64 = 1_700_000_000_000_000_000;
const DAY: i64 = 86_400_000_000_000;

impl World {
    fn new() -> World {
        let mut host = Host::new();
        host.now = NOW;
        let mut world = World { host };
        world.dir(HOME);
        world
    }

    fn add(&mut self, path: &str, kind: Kind, size: u64, text: Option<&str>) {
        if self.host.find(path).is_some() {
            return;
        }
        if let Some((parent, name)) = path.rsplit_once('/') {
            let parent = if parent.is_empty() { "/" } else { parent };
            if path != "/" {
                self.add(parent, Kind::Dir, 0, None);
                for entry in self.host.entries.iter_mut() {
                    if entry.path == parent {
                        entry.names.get_or_insert_with(Vec::new).push(name.to_string());
                    }
                }
            }
        }
        let ino = self.host.entries.len() as u64 + 1;
        self.host.entries.push(Entry {
            path: path.to_string(),
            kind,
            leads_to_dir: kind == Kind::Dir,
            leads_to_file: kind == Kind::File,
            names: if kind == Kind::Dir { Some(Vec::new()) } else { None },
            size,
            modified: Some(NOW),
            text: text.map(|t| t.to_string()),
            uid: 1000,
            dev: 1,
            ino,
        });
        self.host.resolved.push((path.to_string(), path.to_string()));
    }

    fn dir(&mut self, path: &str) {
        self.add(path, Kind::Dir, 0, None);
    }

    fn file(&mut self, path: &str, size: u64) {
        self.add(path, Kind::File, size, None);
    }

    fn text(&mut self, path: &str, contents: &str) {
        self.add(path, Kind::File, contents.len() as u64, Some(contents));
    }

    fn entry(&mut self, path: &str) -> &mut Entry {
        self.host.entries.iter_mut().find(|e| e.path == path).unwrap()
    }

    fn sized_dir(&mut self, path: &str, size: u64) {
        self.add(path, Kind::Dir, size, None);
        self.entry(path).size = size;
    }

    fn age(&mut self, path: &str, days: i64) {
        self.entry(path).modified = Some(NOW - days * DAY);
    }
}

const ROOT: &str = "/sandbox/root";
const HOME: &str = "/sandbox/root/home/user";

fn s(list: &[&str]) -> Vec<String> {
    list.iter().map(|x| x.to_string()).collect()
}

fn home(rel: &str) -> String {
    format!("{HOME}/{rel}")
}

fn ctx() -> Ctx {
    Ctx {
        root: ROOT.to_string(),
        home: HOME.to_string(),
        config_dir: "/sandbox/config".to_string(),
        state_dir: "/sandbox/state".to_string(),
        dry_run: false,
        debug: false,
        config: Config::default(),
        sandboxed: true,
        available_commands: None,
        fake_command_output: None,
    }
}

fn env() -> SafetyEnv {
    SafetyEnv {
        root: ROOT.to_string(),
        home: HOME.to_string(),
        mount_points: Vec::new(),
        euid: 1000,
    }
}

fn output(stdout: &str) -> CmdOutput {
    CmdOutput { success: true, stdout: stdout.to_string(), stderr: String::new() }
}

/// A disk held in memory, whose deletions go the way real ones do.
struct Disk {
    world: World,
    helper: Result<Vec<HelperResult>, String>,
}

impl Disk {
    fn new(world: World) -> Disk {
        Disk { world, helper: Err("no helper".to_string()) }
    }

    fn has(&self, path: &str) -> bool {
        self.world.host.find(path).is_some()
    }
}

fn parent_of(path: &str) -> String {
    path.rsplit_once('/').unwrap().0.to_string()
}

fn name_of(path: &str) -> String {
    path.rsplit_once('/').unwrap().1.to_string()
}

fn take_away(world: &mut World, path: &str) -> Option<String> {
    world.host.entries.retain(|e| e.path != path);
    let parent = world.entry(&parent_of(path));
    parent.names.as_mut().unwrap().retain(|n| *n != name_of(path));
    None
}

fn delete_tree(world: &mut World, path: &str) -> DeleteReport {
    let (mut deleter, mut next) = Deleter::start(path);
    loop {
        next = match next {
            Step::Stat(p) => {
                let found = match world.host.find(&p) {
                    Some(e) => Ok(Metadata {
                        is_dir: e.kind == Kind::Dir,
                        dev: e.dev,
                        blocks: e.size / 512,
                    }),
                    None => Err("No such file or directory".to_string()),
                };
                deleter.on_stat(found)
            }
            Step::List(p) => {
                let names = world.host.list(&p).unwrap();
                deleter.on_list(Ok(names.iter().map(|n| Ok(format!("{p}/{n}"))).collect()))
            }
            Step::Unlink(p) => deleter.on_unlink(take_away(world, &p)),
            Step::RemoveDir(p) => {
                assert!(world.host.list(&p).unwrap().is_empty(), "{p} is not empty");
                deleter.on_remove_dir(take_away(world, &p))
            }
            Step::Done => return deleter.report,
        };
    }
}

impl Hands for Disk {
    fn look(&mut self, _path: &str, _allowed: &Vec<String>) -> Result<Sight, String> {
        Ok(Sight { mount_points: Vec::new(), euid: 1000, host: self.world.host.clone() })
    }

    fn delete_tree(&mut self, path: &str) -> DeleteReport {
        delete_tree(&mut self.world, path)
    }

    fn ask_helper(&mut self, _manifest: &Manifest) -> Result<Vec<HelperResult>, String> {
        self.helper.clone()
    }
}

// ------------------------------------------------------------------- clean

fn safe_delete_rule(id: &'static str, requires_sudo: bool) -> Rule {
    Rule {
        id,
        title: "some rule",
        risk: Risk::Safe,
        requires_sudo,
        applicable: Applicability::Always,
        allowed_prefixes: Vec::new(),
        detector: Detector::Globs(Vec::new()),
        action: Action::DeletePaths,
        notes: "",
    }
}

fn cmd_rule(id: &'static str) -> Rule {
    let mut r = safe_delete_rule(id, true);
    r.action = Action::Cmd(Commands::Journald);
    r
}

fn plain_group(id: &str, title: &str, risk: Risk, sudo: bool, list: Vec<Candidate>) -> Group {
    Group {
        rule_id: id.to_string(),
        title: title.to_string(),
        risk,
        requires_sudo: sudo,
        candidates: list,
        skipped: Vec::new(),
    }
}

fn candidate(path: &str, label: &str, bytes: u64, risk: Risk) -> Candidate {
    Candidate::new(Some(path.to_string()), label.to_string(), bytes, risk)
}

#[test]
fn test_render_plan_empty_groups_says_nothing_to_clean() {
    assert_eq!(clean::render_plan(&vec![], &vec![]), "Nothing to clean.");
}

#[test]
fn test_render_plan_shows_title_risk_and_size() {
    let c = candidate("/x", "~/.cache/thumbnails", 2048, Risk::Safe);
    let group = plain_group("user.thumbnails", "Thumbnail cache", Risk::Safe, false, vec![c]);
    let rules = vec![safe_delete_rule("user.thumbnails", false)];
    let out = clean::render_plan(&vec![group], &rules);
    assert!(out.contains("Thumbnail cache [safe]"));
    assert!(out.contains("~/.cache/thumbnails"));
    assert!(out.contains("2.0 KiB"));
    assert!(out.contains("Would free: 2.0 KiB"));
}

#[test]
fn test_render_plan_shows_skip_reason() {
    let mut group = plain_group("user.thumbnails", "Thumbnail cache", Risk::Safe, false, vec![]);
    group.skipped = vec![("~/.ssh".to_string(), "protected path".to_string())];
    let out =
        clean::render_plan(&vec![group], &vec![safe_delete_rule("user.thumbnails", false)]);
    assert!(out.contains("~/.ssh"));
    assert!(out.contains("skipped: protected path"));
    assert!(out.contains("Would free: 0 B"));
}

#[test]
fn test_render_plan_marks_whitelisted_candidate_and_excludes_from_total() {
    let mut c = candidate("/x", "~/.cache/foo", 999, Risk::Safe);
    c.whitelisted = true;
    c.selectable = false;
    let group = plain_group("user.cache_apps", "Application caches", Risk::Safe, false, vec![c]);
    let out =
        clean::render_plan(&vec![group], &vec![safe_delete_rule("user.cache_apps", false)]);
    assert!(out.contains("(whitelisted)"));
    assert!(out.contains("Would free: 0 B"));
}

#[test]
fn test_render_plan_moderate_group_is_flagged_and_excluded_from_total() {
    let mut c = candidate("/x", "/var/log/journal", 5000, Risk::Moderate);
    c.selectable = true;
    let group =
        plain_group("system.journald", "systemd journal", Risk::Moderate, true, vec![c]);
    let out = clean::render_plan(&vec![group], &vec![cmd_rule("system.journald")]);
    assert!(out.contains("needs manual opt-in"));
    assert!(out.contains("Would free: 0 B"));
}

#[test]
fn test_render_plan_sudo_delete_paths_group_is_flagged_and_excluded_from_total() {
    let mut c = candidate("/x", "/var/cache/pacman/pkg/a.part", 123, Risk::Safe);
    c.selectable = true;
    let group =
        plain_group("pacman.sync_partial", "Partial pacman downloads", Risk::Safe, true, vec![c]);
    let out =
        clean::render_plan(&vec![group], &vec![safe_delete_rule("pacman.sync_partial", true)]);
    assert!(out.contains("needs root file deletion"));
    assert!(out.contains("Would free: 0 B"));
}

fn target_rule(id: &'static str) -> Rule {
    let mut r = safe_delete_rule(id, false);
    r.allowed_prefixes = vec!["~/.cache/target"];
    r
}

fn with_target() -> Disk {
    let mut w = World::new();
    w.file(&home(".cache/target/f.txt"), 4096);
    Disk::new(w)
}

fn cleaned(risk: Risk, dry_run: bool) -> (String, bool) {
    let c = ctx();
    let path = home(".cache/target");
    let group =
        plain_group("test.rule", "test", risk, false, vec![candidate(&path, "target", 4096, risk)]);
    let mut log = MemoryLog::new();
    let selection = vec![(0usize, 0usize)];
    let rules = vec![target_rule("test.rule")];
    let list = vec![group];
    let mut real = RealEffector::new(&c, FakeRunner::new(), with_target());
    let host = Host::new();
    let (_, out) = clean::render_after_selection(
        &list, &selection, &rules, &c, &host, dry_run, &mut real, &mut log, "run",
    );
    (out.unwrap().rendered, real.hands().has(&path))
}

#[test]
fn clean_test_render_after_selection_executes_only_the_selected_candidate() {
    let (text, there) = cleaned(Risk::Safe, false);
    assert_eq!(text, "Freed 4.0 KiB · 1 item");
    assert!(!there);
}

#[test]
fn test_render_after_selection_executes_a_selected_moderate_candidate() {
    let (text, there) = cleaned(Risk::Moderate, false);
    assert_eq!(text, "Freed 4.0 KiB · 1 item");
    assert!(!there, "a selected Moderate candidate must actually execute");
}

#[test]
fn test_render_after_selection_dry_run_leaves_filesystem_untouched() {
    let (text, there) = cleaned(Risk::Safe, true);
    assert!(text.contains("dry run — nothing deleted"), "{text}");
    assert!(there, "dry run must not delete anything");
}

#[test]
fn test_render_after_selection_surfaces_a_sandboxed_sudo_skip_as_a_note() {
    let c = ctx();
    let path = format!("{ROOT}/var/cache/target");
    let mut w = World::new();
    w.dir(&path);
    let host = w.host.clone();
    let mut rule = safe_delete_rule("test.sudo_rule", true);
    rule.allowed_prefixes = vec!["/var/cache/target"];
    let list = vec![plain_group(
        "test.sudo_rule",
        "test",
        Risk::Safe,
        true,
        vec![candidate(&path, "target", 512, Risk::Safe)],
    )];
    let mut log = MemoryLog::new();
    let mut effector = RealEffector::new(&c, FakeRunner::new(), Disk::new(w));
    let (_, out) = clean::render_after_selection(
        &list,
        &vec![(0usize, 0usize)],
        &vec![rule],
        &c,
        &host,
        false,
        &mut effector,
        &mut log,
        "run",
    );
    let text = out.unwrap().rendered;
    assert!(text.contains("Freed 0 B · 0 items · 1 skipped"), "{text}");
    assert!(text.contains("note:"));
    assert!(effector.hands().has(&path));
}

/// A run of the registered rules, with `paccache` there to run.
fn with_paccache(yes: bool, dry_run: bool) -> (String, Vec<Record>) {
    let mut c = ctx();
    c.available_commands = Some(s(&["paccache"]));
    let w = World::new();
    let host = w.host.clone();
    let mut log = MemoryLog::new();
    let mut effector = RealEffector::new(&c, FakeRunner::new(), Disk::new(w));
    let (_, _, out) = clean::run(
        &c,
        &parse("", HOME).unwrap(),
        &env(),
        &host,
        yes,
        dry_run,
        false,
        &mut FakeRunner::new(),
        &mut effector,
        &mut log,
        "run",
    );
    (out.unwrap().rendered, log.records)
}

#[test]
fn test_run_yes_human_surfaces_an_execution_time_sudo_skip_as_a_note() {
    // `pacman.cache` only shows up once its command is there; it needs sudo,
    // and nothing runs sudo in a sandbox. That is found out when it is to be
    // run, and not when it is scanned.
    let (text, _) = with_paccache(true, false);
    assert!(text.contains("note:"), "the skip must be surfaced, got: {text}");
    assert!(text.contains("skipped"));
}

#[test]
fn a_run_without_flags_only_plans() {
    let (text, records) = with_paccache(false, false);
    assert!(text.contains("--yes") && !text.contains("note:"), "{text}");
    assert!(records.is_empty());
    let (text, records) = with_paccache(true, true);
    assert!(text.contains("dry run") && !text.contains("note:"), "{text}");
    assert!(!records.is_empty() && records.iter().all(|r| r.dry_run));
}

#[test]
fn nothing_is_ticked_from_the_start_unless_it_is_safe() {
    let mut c = ctx();
    c.available_commands = Some(s(&["paccache", "journalctl", "flatpak"]));
    let mut w = World::new();
    w.file(&home(".var/app/org.foo.App/cache/f"), 4096);
    w.file(&home(".cache/thumbnails/a.png"), 4096);
    w.dir(&format!("{ROOT}/var/log/journal"));
    let (groups, _, _) = clean::run(
        &c,
        &parse("", HOME).unwrap(),
        &env(),
        &w.host,
        false,
        false,
        true,
        &mut FakeRunner::new(),
        &mut DryRunEffector::new(),
        &mut MemoryLog::new(),
        "run",
    );
    let offers = |risk: Risk| -> Vec<bool> {
        let of_risk = groups.iter().filter(|g| g.risk == risk);
        of_risk.flat_map(|g| g.candidates.iter().map(|c| c.selectable)).collect()
    };
    assert!(offers(Risk::Safe).contains(&true));
    assert!(!offers(Risk::Moderate).is_empty());
    assert!(!offers(Risk::Moderate).contains(&true));
    assert!(!offers(Risk::Risky).contains(&true));
}

#[test]
fn a_journal_that_cannot_be_read_is_an_error_after_the_fact() {
    struct Unreadable;
    impl AuditLog for Unreadable {
        fn append(&mut self, _: &Record) -> Result<(), String> {
            Ok(())
        }
        fn read_all(&mut self) -> Result<Vec<Record>, String> {
            Err("no such journal".to_string())
        }
    }
    let c = ctx();
    let (w, dir) = project_with_node_modules();
    let host = w.host.clone();
    let mut effector = RealEffector::new(&c, FakeRunner::new(), Disk::new(w));
    let mut log = Unreadable;
    let wl = parse("", HOME).unwrap();
    let (groups, summary, out) =
        purging::run(&c, &wl, &env(), &host, true, false, &mut effector, &mut log, "run");
    assert!(!groups.is_empty());
    assert_eq!(summary.unwrap().bytes_freed, 4096);
    assert_eq!(out.unwrap_err(), "no such journal");
    assert!(!effector.hands().has(&dir));
}

/// Notes down when it is written to and when it is read.
struct Diary {
    log: MemoryLog,
    order: Vec<&'static str>,
}

impl Diary {
    fn new() -> Diary {
        Diary { log: MemoryLog::new(), order: Vec::new() }
    }

    /// Whether it was read once, when everything was in it.
    fn read_at_the_end(&self) -> bool {
        self.order.iter().filter(|o| **o == "read").count() == 1
            && self.order.last() == Some(&"read")
    }
}

impl AuditLog for Diary {
    fn append(&mut self, record: &Record) -> Result<(), String> {
        self.order.push("write");
        self.log.append(record)
    }

    fn read_all(&mut self) -> Result<Vec<Record>, String> {
        self.order.push("read");
        self.log.read_all()
    }
}

#[test]
fn the_journal_is_read_when_the_run_is_over() {
    let c = ctx();
    let wl = parse("", HOME).unwrap();
    for (yes, dry_run) in [(true, false), (true, true), (false, true)] {
        let (w, _) = project_with_node_modules();
        let host = w.host.clone();
        let mut effector = RealEffector::new(&c, FakeRunner::new(), Disk::new(w));
        let mut diary = Diary::new();
        let (_, _, out) = purging::run(
            &c, &wl, &env(), &host, yes, dry_run, &mut effector, &mut diary, "run",
        );
        assert!(out.is_ok());
        assert_eq!(diary.order, vec!["write", "read"]);

        let mut diary = Diary::new();
        let (groups, _, out) = optimize::run(
            &c,
            &wl,
            &env(),
            &host,
            yes,
            dry_run,
            &mut FakeRunner::new(),
            &mut effector,
            &mut diary,
            "run",
        );
        assert!(out.is_ok());
        assert!(diary.read_at_the_end(), "{:?} on {} groups", diary.order, groups.len());
    }
    let mut diary = Diary::new();
    let (w, _) = project_with_node_modules();
    let mut effector = RealEffector::new(&c, FakeRunner::new(), with_target());
    let (_, _, out) = purging::run(
        &c, &wl, &env(), &w.host, false, false, &mut effector, &mut diary, "run",
    );
    assert!(out.is_ok());
    assert!(diary.order.is_empty(), "a plan has nothing to read up");
}

#[test]
fn the_journal_is_read_when_a_selection_is_dealt_with() {
    let c = ctx();
    let list = vec![plain_group(
        "test.rule",
        "Test",
        Risk::Safe,
        false,
        vec![candidate(&home(".cache/target"), "target", 4096, Risk::Safe)],
    )];
    let mut diary = Diary::new();
    let mut effector = RealEffector::new(&c, FakeRunner::new(), with_target());
    let (summary, out) = clean::render_after_selection(
        &list,
        &vec![(0usize, 0usize)],
        &vec![target_rule("test.rule")],
        &c,
        &Host::new(),
        false,
        &mut effector,
        &mut diary,
        "run",
    );
    assert_eq!(summary.actions, 1);
    assert!(out.is_ok());
    assert_eq!(diary.order, vec!["write", "read"]);

    let mut diary = Diary::new();
    let mut effector = Informed::new(FakeRunner::new(), DryRunEffector::new());
    let (removal, _) = uninstall::render_after_removal_and_leftovers(
        &flatpak_package(),
        &vec![leftovers(&[".config/foo"])],
        &vec![(0usize, 0usize)],
        &s(&[&home(".config")]),
        &mut effector,
        &mut diary,
        "run",
        true,
    );
    assert!(removal.is_ok());
    assert_eq!(diary.order, vec!["write", "write", "read"]);
}

#[test]
fn a_report_leaves_out_what_was_there_before_the_run() {
    let mut c = ctx();
    c.available_commands = Some(s(&["paccache"]));
    let mut log = MemoryLog::new();
    let mut before = record("earlier", "clean", "other.rule", 77, false);
    before.outcome = "error: long ago".to_string();
    log.append(&before).unwrap();
    let mut effector = RealEffector::new(&c, FakeRunner::new(), Disk::new(World::new()));
    let (_, summary, out) = clean::run(
        &c,
        &parse("", HOME).unwrap(),
        &env(),
        &World::new().host,
        true,
        false,
        false,
        &mut FakeRunner::new(),
        &mut effector,
        &mut log,
        "run",
    );
    let text = out.unwrap().rendered;
    assert!(text.contains("· 0 items · 2 skipped"), "{text}");
    assert!(text.contains("note: ") && !text.contains("long ago"), "{text}");
    assert_eq!(summary.unwrap().actions, 2);
    assert_eq!(log.records.len(), 3);
    assert_eq!(log.records[0], before);
}

#[test]
fn a_plan_points_at_the_flags_and_a_run_at_its_result() {
    let c = candidate("/x", "~/.cache/thumbnails", 2048, Risk::Safe);
    let list =
        vec![plain_group("user.thumbnails", "Thumbnail cache", Risk::Safe, false, vec![c])];
    let rules = vec![safe_delete_rule("user.thumbnails", false)];
    let plan = clean::render_human(&list, &rules, None, Intent::Plan, 0, 0);
    assert!(plan.contains("--dry-run") && plan.contains("--yes"), "{plan}");
    let summary = Summary { bytes_freed: 2048, actions: 1, journal_warnings: Vec::new() };
    let ran = clean::render_human(&list, &rules, Some(&summary), Intent::Act, 1, 0);
    assert!(ran.contains("Freed 2.0 KiB"), "{ran}");
}

// ------------------------------------------------------------------ shared

#[test]
fn a_dry_run_wins_over_yes() {
    assert_eq!(intent(false, false), Intent::Plan);
    assert_eq!(intent(true, false), Intent::Act);
    assert_eq!(intent(false, true), Intent::Preview);
    assert_eq!(intent(true, true), Intent::Preview);
}

#[test]
fn only_people_at_a_terminal_are_asked() {
    assert!(interactive(Mode::Human, false, true));
    assert!(!interactive(Mode::Human, true, true));
    assert!(!interactive(Mode::Human, false, false));
    assert!(!interactive(Mode::Json, false, true));
}

// ----------------------------------------------------------------- history

fn record(run_id: &str, cmd: &str, rule: &str, bytes: u64, dry_run: bool) -> Record {
    Record {
        ts: "2026-01-02T03:04:05Z".to_string(),
        run_id: run_id.to_string(),
        cmd: cmd.to_string(),
        rule: rule.to_string(),
        action: "delete".to_string(),
        argv: Some(s(&["badger", "clean"])),
        paths: Some(s(&["/home/user/.cache/foo"])),
        sudo: false,
        dry_run,
        bytes_freed: bytes,
        outcome: "ok".to_string(),
    }
}

fn two_runs() -> Vec<Record> {
    vec![
        record("run-1", "clean", "paccache", 1024, false),
        record("run-2", "purge", "trash", 2048, false),
    ]
}

#[test]
fn test_render_empty_shows_no_operations() {
    assert_eq!(history::render(&vec![], None), "No operations recorded yet.");
}

#[test]
fn test_render_groups_two_runs_in_first_seen_order() {
    let out = history::render(&two_runs(), None);
    let run1_pos = out.find("run-1").unwrap();
    let run2_pos = out.find("run-2").unwrap();
    assert!(run1_pos < run2_pos);
    assert!(out.contains("clean"));
    assert!(out.contains("purge"));
    assert!(out.contains("paccache"));
    assert!(out.contains("trash"));
}

#[test]
fn test_render_shows_dry_run_marker() {
    let records = vec![record("run-1", "clean", "paccache", 1024, true)];
    assert!(history::render(&records, None).contains("dry-run"));
}

#[test]
fn test_render_run_filter_shows_full_detail() {
    let out = history::render(&two_runs(), Some("run-1"));
    assert!(!out.contains("run-2"));
    assert!(out.contains("run-1"));
    assert!(out.contains("badger clean"));
    assert!(out.contains("/home/user/.cache/foo"));
}

#[test]
fn a_run_is_told_once_though_its_records_are_apart() {
    let records = vec![
        record("run-1", "clean", "a", 1, false),
        record("run-2", "clean", "b", 2, false),
        record("run-1", "clean", "c", 3, false),
    ];
    let out = history::render(&records, None);
    assert_eq!(out.matches("run-1").count(), 1, "{out}");
    assert_eq!(history::of_run(&records, Some("run-1")), vec![0, 2]);
    assert_eq!(history::of_run(&records, None), vec![0, 1, 2]);
}

// ---------------------------------------------------------------- optimize

fn task(title: &str, rule_id: &str, risk: Risk, label: &str) -> Group {
    let c = Candidate::new(None, label.to_string(), 0, risk);
    plain_group(rule_id, title, risk, true, vec![c])
}

fn trim() -> Group {
    task("Trim SSD free space", "optimize.fstrim", Risk::Safe, "fstrim -av")
}

#[test]
fn test_render_plan_empty_groups_says_nothing_to_optimize() {
    assert_eq!(optimize::render_plan(&vec![]), "Nothing to optimize.");
}

#[test]
fn test_render_plan_shows_prechecked_task_without_opt_in_note() {
    let g = task(
        "Trim SSD free space",
        "optimize.fstrim",
        Risk::Safe,
        "Trim free space on all mounted filesystems (fstrim -av)",
    );
    let out = optimize::render_plan(&vec![g]);
    assert!(out.contains("Trim SSD free space [safe, sudo]"));
    assert!(out.contains("fstrim -av"));
    assert!(!out.contains("not run automatically"));
    assert!(out.contains("1 pre-checked task(s) will run with --yes; 0 opt-in"));
}

#[test]
fn test_render_plan_flags_moderate_task_as_opt_in() {
    let g = task(
        "Refresh pacman file database",
        "optimize.pacman_files",
        Risk::Moderate,
        "pacman -Fy",
    );
    let out = optimize::render_plan(&vec![g]);
    assert!(out.contains("[moderate, sudo]"));
    assert!(out.contains("opt-in — not run automatically"));
    assert!(out.contains("0 pre-checked task(s) will run with --yes; 1 opt-in"));
}

#[test]
fn test_render_human_without_execution_points_at_dry_run_and_yes() {
    let out = optimize::render_human(&vec![trim()], Intent::Plan, 0, 0);
    assert!(out.contains("--dry-run"));
    assert!(out.contains("--yes"));
}

#[test]
fn test_render_human_dry_run_reports_would_run_count() {
    let out = optimize::render_human(&vec![trim()], Intent::Preview, 2, 1);
    assert!(out.contains("Would run 2 task(s)"));
    assert!(out.contains("dry run"));
    assert!(out.contains("1 skipped"));
}

#[test]
fn test_render_human_yes_reports_ran_count_and_omits_skipped_when_zero() {
    let out = optimize::render_human(&vec![trim()], Intent::Act, 3, 0);
    assert!(out.contains("Ran 3 task(s)."));
    assert!(!out.contains("skipped"));
}

#[test]
fn a_report_counts_and_explains_its_own_run_only() {
    let mut failed = record("run-2", "optimize", "optimize.fstrim", 0, false);
    failed.outcome = "error: no such device".to_string();
    let told = vec![
        record("run-1", "optimize", "optimize.fstrim", 0, false),
        record("run-2", "optimize", "optimize.resolved", 0, false),
        failed,
    ];
    let plan = optimize::report(&vec![trim()], Intent::Plan, &told, "run-2").rendered;
    assert!(plan.contains("--yes") && !plan.contains("note:"), "{plan}");
    let ran = optimize::report(&vec![trim()], Intent::Act, &told, "run-2").rendered;
    assert!(ran.contains("Ran 1 task(s)."), "{ran}");
    assert!(ran.contains("note: optimize.fstrim — error: no such device"), "{ran}");
    let picked = optimize::report_selection(&told, "run-1", true).rendered;
    assert!(picked.contains("Would run 1 task(s)") && !picked.contains("note:"), "{picked}");
    let summary = Summary { bytes_freed: 2048, actions: 1, journal_warnings: Vec::new() };
    let rules = vec![safe_delete_rule("user.thumbnails", false)];
    let c = candidate("/x", "~/.cache/thumbnails", 2048, Risk::Safe);
    let list =
        vec![plain_group("user.thumbnails", "Thumbnail cache", Risk::Safe, false, vec![c])];
    let out = clean::report(&list, &rules, Some(&summary), Intent::Act, &told, "run-2").rendered;
    assert!(out.contains("Freed 2.0 KiB") && out.contains("no such device"), "{out}");
    let out = purging::report_selection(&summary, &told, "run-2", false).rendered;
    assert!(out.contains("2.0 KiB") && out.contains("no such device"), "{out}");
}

// ------------------------------------------------------------------- purge

fn project_with_node_modules() -> (World, String) {
    let mut w = World::new();
    w.file(&home("dev/site/package.json"), 2);
    let dir = home("dev/site/node_modules");
    w.file(&format!("{dir}/a.js"), 4096);
    w.entry(&dir).size = 4096;
    w.age(&home("dev/site"), 30);
    (w, dir)
}

fn artifacts(world: &World, whitelist: &str) -> Vec<Group> {
    let c = ctx();
    let wl = parse(whitelist, HOME).unwrap();
    purge::scan(&c, &c.config, &wl, &env(), &world.host)
}

fn purged(whitelist: &str, days: i64, yes: bool, dry_run: bool) -> (String, bool, Vec<Record>) {
    let c = ctx();
    let (mut w, dir) = project_with_node_modules();
    w.age(&home("dev/site"), days);
    let host = w.host.clone();
    let wl = parse(whitelist, HOME).unwrap();
    let mut log = MemoryLog::new();
    let mut real = RealEffector::new(&c, FakeRunner::new(), Disk::new(w));
    let (_, _, out) =
        purging::run(&c, &wl, &env(), &host, yes, dry_run, &mut real, &mut log, "run");
    let text = out.unwrap().rendered;
    (text, real.hands().has(&dir), log.records)
}

#[test]
fn test_default_plan_shows_candidate_and_does_not_touch_journal_or_filesystem() {
    let (text, there, records) = purged("", 30, false, false);
    assert!(text.contains("node_modules"));
    assert!(text.contains("4.0 KiB"));
    assert!(text.contains("--dry-run"));
    assert!(text.contains("--yes"));
    assert!(there);
    assert!(records.is_empty());
}

#[test]
fn test_dry_run_journals_and_leaves_filesystem_untouched() {
    let (text, there, records) = purged("", 30, false, true);
    assert!(text.contains("Would free 4.0 KiB"), "{text}");
    assert!(there, "dry run must not delete anything");
    assert_eq!(records.len(), 1);
    assert!(records[0].dry_run);
    assert_eq!(records[0].cmd, "purge");
}

#[test]
fn test_yes_deletes_pre_checked_candidate_and_journals_real_run() {
    let (text, there, records) = purged("", 30, true, false);
    assert!(text.contains("Freed 4.0 KiB"), "{text}");
    assert!(!there, "--yes must delete the pre-checked candidate");
    assert!(!records[0].dry_run);
}

#[test]
fn test_whitelisted_artifact_is_never_deleted_by_yes() {
    let (text, there, _) = purged("~/dev/site/node_modules\n", 30, true, false);
    assert!(text.contains("Freed 0 B"), "{text}");
    assert!(there, "whitelisted artifact must survive --yes");
}

#[test]
fn test_recent_project_is_never_deleted_by_yes() {
    let (text, there, _) = purged("", 0, true, false);
    assert!(text.contains("Freed 0 B"), "{text}");
    assert!(there);
}

#[test]
fn test_nothing_to_purge_on_an_empty_home() {
    let c = ctx();
    let w = World::new();
    let host = w.host.clone();
    let mut effector = RealEffector::new(&c, FakeRunner::new(), Disk::new(w));
    let (_, _, out) = purging::run(
        &c,
        &parse("", HOME).unwrap(),
        &env(),
        &host,
        false,
        false,
        &mut effector,
        &mut MemoryLog::new(),
        "run",
    );
    assert_eq!(out.unwrap().rendered, "Nothing to purge.");
}

#[test]
fn purge_test_render_after_selection_executes_only_the_selected_candidate() {
    let c = ctx();
    let (w, dir) = project_with_node_modules();
    let list = artifacts(&w, "");
    let mut log = MemoryLog::new();
    let mut effector = RealEffector::new(&c, FakeRunner::new(), Disk::new(w));
    let (_, out) = purging::render_after_selection(
        &list,
        &vec![(0usize, 0usize)],
        &c,
        false,
        &mut effector,
        &mut log,
        "run",
    );
    assert_eq!(out.unwrap().rendered, "Freed 4.0 KiB.");
    assert!(!effector.hands().has(&dir));
}

// --------------------------------------------------------------- whitelist

#[test]
fn test_list_on_missing_file_says_empty() {
    assert_eq!(whitelist::list(""), "(whitelist is empty)");
}

#[test]
fn test_add_then_list_shows_the_pattern() {
    let (msg, now) = whitelist::add("", "~/cache/*");
    assert!(msg.contains("~/cache/*"));
    assert_eq!(whitelist::list(&now.unwrap()), "~/cache/*");
}

#[test]
fn test_add_is_idempotent() {
    let now = whitelist::add("", "~/cache/*").1.unwrap();
    let (msg, again) = whitelist::add(&now, "~/cache/*");
    assert!(msg.contains("Already"), "message was: {msg}");
    assert_eq!(again, None);
    assert_eq!(whitelist::list(&now), "~/cache/*");
}

#[test]
fn test_remove_deletes_a_present_pattern() {
    let now = whitelist::add("", "~/cache/*").1.unwrap();
    let (msg, left) = whitelist::remove(&now, "~/cache/*");
    assert!(msg.contains("Removed"));
    assert_eq!(whitelist::list(&left.unwrap()), "(whitelist is empty)");
}

#[test]
fn test_remove_missing_pattern_is_a_friendly_noop() {
    let (msg, left) = whitelist::remove("", "~/nope/*");
    assert!(msg.contains("Not in whitelist"), "message was: {msg}");
    assert_eq!(left, None);
}

#[test]
fn a_pattern_is_added_on_a_line_of_its_own() {
    let now = whitelist::add("~/a", "~/b").1.unwrap();
    assert_eq!(now, "~/a\n~/b\n");
    assert_eq!(whitelist::list(&now), "~/a\n~/b");
    assert_eq!(whitelist::add("~/a\n", "~/b").1.unwrap(), "~/a\n~/b\n");
}

#[test]
fn removing_what_was_added_leaves_the_other_lines() {
    for before in ["", "# keep\n\n~/a\n", "~/a\n# last", "  ~/a  \n\n\n"] {
        let now = whitelist::add(before, "~/b").1.unwrap();
        let left = whitelist::remove(&now, "~/b").1.unwrap();
        assert_eq!(left.lines().collect::<Vec<_>>(), before.lines().collect::<Vec<_>>());
    }
}

#[test]
fn each_action_on_the_whitelist_is_answered() {
    let add = WhitelistAction::Add { pattern: "~/keep".to_string() };
    let (message, contents) = whitelist::answer(&add, "");
    assert_eq!(message, "Added to whitelist: ~/keep");
    let contents = contents.unwrap();
    assert_eq!(contents, "~/keep\n");
    assert_eq!(whitelist::answer(&WhitelistAction::List, &contents), ("~/keep".to_string(), None));
    let (message, rest) =
        whitelist::answer(&WhitelistAction::Remove { pattern: "~/keep".to_string() }, &contents);
    assert_eq!(message, "Removed from whitelist: ~/keep");
    assert_eq!(rest, Some(String::new()));
}

#[test]
fn the_whitelist_lies_in_the_config_directory() {
    assert_eq!(whitelist::whitelist_path("/c"), "/c/whitelist");
}

// --------------------------------------------------------------- selection

fn checklist() -> Vec<Group> {
    let group = |risk: Risk, labels: &[&str]| Group {
        rule_id: "some.rule".to_string(),
        title: "some rule".to_string(),
        risk,
        requires_sudo: false,
        candidates: labels
            .iter()
            .map(|l| Candidate::new(None, l.to_string(), 0, risk))
            .collect(),
        skipped: Vec::new(),
    };
    let mut list = vec![
        group(Risk::Safe, &["a", "b"]),
        group(Risk::Moderate, &["c"]),
        group(Risk::Risky, &["d"]),
    ];
    list[0].candidates[1].whitelisted = true;
    list
}

#[test]
fn numbers_run_through_all_groups_and_spare_the_whitelist() {
    let list = checklist();
    assert_eq!(tick(&list, &vec![4, 1, 2, 1, 3]), Ok(vec![(2, 0), (0, 0), (1, 0)]));
    assert_eq!(tick(&list, &vec![1, 5]), Err(5));
    assert_eq!(tick(&list, &vec![0]), Err(0));
    assert_eq!(tick(&list, &Vec::new()), Ok(Vec::new()));
}

#[test]
fn risky_selections_are_confirmed_by_their_size() {
    let list = checklist();
    let risky = vec![(0, 0), (2, 0)];
    assert_eq!(demand(&list, &risky), ("Risky: 1 item\n".to_string(), "2".to_string()));
    assert!(confirmed(&list, &risky, " 2\n"));
    assert!(!confirmed(&list, &risky, "y"));
    assert!(!confirmed(&list, &risky, "1"));
}

#[test]
fn moderate_selections_are_called_out() {
    let list = checklist();
    let moderate = vec![(0, 0), (1, 0)];
    assert_eq!(demand(&list, &moderate), ("Moderate: 1 item\n".to_string(), "y".to_string()));
    assert!(confirmed(&list, &moderate, "y"));
    assert!(!confirmed(&list, &moderate, ""));
    assert_eq!(demand(&list, &vec![(0, 0)]), (String::new(), "y".to_string()));
}

// --------------------------------------------------------------- uninstall

fn flatpak_package() -> InstalledPackage {
    InstalledPackage {
        backend: Backend::Flatpak,
        id: "org.foo.App".to_string(),
        name: "Foo App".to_string(),
        version: "1.2.3".to_string(),
        size_bytes: None,
        aur: false,
    }
}

fn pacman_package() -> InstalledPackage {
    InstalledPackage {
        backend: Backend::Pacman,
        id: "foo".to_string(),
        name: "foo".to_string(),
        version: "1.0-1".to_string(),
        size_bytes: None,
        aur: false,
    }
}

fn flatpak_argv() -> Vec<String> {
    s(&["flatpak", "uninstall", "--delete-data", "--noninteractive", "org.foo.App"])
}

#[test]
fn test_run_bails_when_mode_is_not_human() {
    let err = uninstall::refusal(Mode::Json, true).unwrap();
    assert!(err.contains("interactive terminal"));
    assert!(uninstall::refusal(Mode::Human, false).is_some());
    assert_eq!(uninstall::refusal(Mode::Human, true), None);
}

#[test]
fn pacman_packages_are_removed_as_root() {
    let (argv, sudo) = uninstall::remove_argv_for(&pacman_package());
    assert!(sudo);
    assert_eq!(argv, s(&["pacman", "-Rns", "--noconfirm", "--", "foo"]));
}

#[test]
fn test_remove_argv_for_flatpak_is_never_sudo() {
    let (_, sudo) = uninstall::remove_argv_for(&flatpak_package());
    assert!(!sudo);
}

fn leftovers(paths: &[&str]) -> Group {
    let list = paths.iter().map(|p| candidate(&home(p), p, 4096, Risk::Moderate)).collect();
    plain_group("uninstall.leftovers", "Leftovers for Foo App", Risk::Moderate, false, list)
}

fn leftover_world(paths: &[&str]) -> World {
    let mut w = World::new();
    for p in paths {
        w.file(&home(&format!("{p}/settings.ini")), 4096);
    }
    w
}

struct Outcome {
    result: Result<String, String>,
    disk: Disk,
    records: Vec<Record>,
    asked: Vec<Vec<String>>,
}

fn removed(package: InstalledPackage, paths: &[&str], pick: bool, success: bool) -> Outcome {
    let c = ctx();
    let mut reply = output("");
    reply.success = success;
    reply.stderr = "error: not installed".to_string();
    let fake = FakeRunner::new().with(flatpak_argv(), reply);
    let files = output("/usr/bin/foo\n");
    let asker = FakeRunner::new().with(s(&["pacman", "-Qql", "foo"]), files);
    let mut log = MemoryLog::new();
    let real = RealEffector::new(&c, fake, Disk::new(leftover_world(paths)));
    let mut effector = Informed::new(asker, real);
    let list = if paths.is_empty() { vec![] } else { vec![leftovers(paths)] };
    let selection = if pick { vec![(0usize, 0usize)] } else { vec![] };
    let allowed = s(&[&home(".config"), &home(".cache")]);
    let result = uninstall::render_after_removal_and_leftovers(
        &package,
        &list,
        &selection,
        &allowed,
        &mut effector,
        &mut log,
        "run-1",
        false,
    );
    let (asker, real) = effector.parts();
    Outcome {
        result: result.0.map(|r| r.rendered),
        disk: real.hands(),
        records: log.records,
        asked: asker.calls,
    }
}

#[test]
fn test_render_after_removal_runs_flatpak_uninstall_and_journals_it() {
    let got = removed(flatpak_package(), &[], false, true);
    assert_eq!(got.result.unwrap(), "Removed Foo App via flatpak.");
    assert_eq!(got.records.len(), 1);
    assert_eq!(got.records[0].outcome, "ok");
    assert!(!got.records[0].sudo);
}

#[test]
fn test_removal_failure_bails_and_never_touches_leftovers() {
    let got = removed(flatpak_package(), &[".config/Foo App"], true, false);
    assert!(got.result.unwrap_err().contains("failed to remove"));
    assert!(
        got.disk.has(&home(".config/Foo App")),
        "leftover must be untouched on removal failure"
    );
}

#[test]
fn test_leftover_pipeline_deletes_only_the_selected_candidate() {
    let got = removed(flatpak_package(), &[".cache/Foo App", ".config/Foo App"], true, true);
    assert!(got.result.unwrap().contains("Freed"));
    assert!(!got.disk.has(&home(".cache/Foo App")));
    assert!(got.disk.has(&home(".config/Foo App")), "unselected leftover must survive");
}

#[test]
fn test_no_leftovers_omits_the_leftovers_line() {
    let got = removed(flatpak_package(), &[], false, true);
    assert_eq!(got.result.unwrap(), "Removed Foo App via flatpak.");
}

#[test]
fn test_owned_files_are_captured_for_pacman_and_journaled() {
    // Removing is up to root, and nothing of that runs in a sandbox; the list
    // of files is still taken and journaled beforehand.
    let got = removed(pacman_package(), &[], false, true);
    let text = got.result.unwrap();
    assert!(text.contains("note:"));
    assert!(text.contains("skipped"));
    assert_eq!(got.records[0].paths, Some(s(&["/usr/bin/foo"])));
}

#[test]
fn only_pacman_is_asked_for_the_files_of_a_package() {
    let got = removed(pacman_package(), &[], false, true);
    assert_eq!(got.asked, vec![s(&["pacman", "-Qql", "foo"])]);
    let got = removed(flatpak_package(), &[], false, true);
    assert!(got.asked.is_empty());
    assert_eq!(got.records[0].paths, None);
}

#[test]
fn files_are_asked_for_before_the_removal() {
    let c = ctx();
    let asker = FakeRunner::new();
    let mut effector = Informed::new(asker, RealEffector::new(&c, FakeRunner::new(), with_target()));
    assert!(effector.ask(&s(&["pacman", "-Qql", "foo"])).is_err());
    let cmd = CmdSpec { argv: s(&["true"]), sudo: false, label: "Remove Foo".to_string() };
    let first = effector.run(&cmd).outcome;
    assert!(first.starts_with("error: no canned response"), "{first}");
    let mut told = Informed::new(FakeRunner::new(), DryRunEffector::new());
    assert_eq!(told.run(&cmd).outcome, "would run: true");
    assert_eq!(told.delete(false, &s(&["/x"]), "/x/y", 7).outcome, "would delete");
    assert!(told.delete_privileged("run", &Vec::new()).is_empty());
    assert_eq!(effector.parts().0.calls, vec![s(&["pacman", "-Qql", "foo"])]);
}

#[test]
fn test_dry_run_journals_removal_and_leftovers_without_touching_disk() {
    let mut log = MemoryLog::new();
    let output = uninstall::render_after_removal_and_leftovers(
        &flatpak_package(),
        &vec![leftovers(&[".config/Foo App"])],
        &vec![(0usize, 0usize)],
        &s(&[&home(".config")]),
        &mut Informed::new(FakeRunner::new(), DryRunEffector::new()),
        &mut log,
        "run-1",
        true,
    )
    .0
    .unwrap();
    assert!(output.rendered.contains("Would remove Foo App via flatpak (dry run)."));
    assert!(output.rendered.contains("Would free 4.0 KiB from leftovers (dry run)."));
    assert_eq!(log.records.len(), 2);
    assert!(log.records.iter().all(|r| r.dry_run));
}

#[test]
fn test_execute_leftover_selection_ignores_a_candidate_not_in_the_selection() {
    let c = ctx();
    let world = leftover_world(&[".config/foo"]);
    let mut effector = RealEffector::new(&c, FakeRunner::new(), Disk::new(world));
    let summary = uninstall::execute_leftover_selection(
        &vec![leftovers(&[".config/foo"])],
        &vec![],
        &s(&[&home(".config")]),
        &mut effector,
        &mut MemoryLog::new(),
        "run-1",
        false,
    );
    assert_eq!(summary.actions, 0);
    assert!(effector.hands().has(&home(".config/foo")));
}

// ------------------------------------------------------------------ status

fn report() -> StatusReport {
    StatusReport {
        health_score: 100,
        health_reasons: Vec::new(),
        cpu_total: "12.5".to_string(),
        cores: vec![Core { percent: "12.5".to_string(), bar: 3 }],
        load: ("0.10".to_string(), "0.20".to_string(), "0.30".to_string()),
        mem_total: 8 * 1024 * 1024,
        mem_available: 4 * 1024 * 1024,
        swap_total: 0,
        swap_free: 0,
        psi_cpu: Some("0.00 / 0.00 / 0.00".to_string()),
        psi_memory: None,
        psi_io: None,
        disk_totals: DiskTotals {
            total: 1024,
            used: 512,
            available: 512,
            fs_kind: "ext4".to_string(),
            btrfs_unallocated: None,
        },
        disk_rates: vec![Rate { name: "nvme0n1".to_string(), inward: 1024, outward: 2048 }],
        net_rates: Vec::new(),
        hottest: None,
        battery: None,
        kernel: "7.1.3-1-cachyos".to_string(),
        scx: None,
        failed_units: Some(0),
    }
}

#[test]
fn the_status_is_told_as_it_is_rendered() {
    assert_eq!(status::report(&report()).rendered, status::render_human(&report()));
    assert!(status::report(&report()).rendered.contains("Health"));
}

#[test]
fn test_render_human_contains_health_score_line() {
    let rendered = status::render_human(&report());
    assert!(rendered.contains("Health: 100/100"));
    assert!(rendered.contains("Kernel: 7.1.3-1-cachyos"));
}

#[test]
fn reasons_and_rates_are_shown() {
    let mut r = report();
    r.health_score = 70;
    r.health_reasons = s(&["disk is full"]);
    let rendered = status::render_human(&r);
    assert!(rendered.contains("Health: 70/100"));
    assert!(rendered.contains("disk is full"));
    assert!(rendered.contains("nvme0n1"));
    assert!(rendered.contains("1.0 KiB"));
}

/// The files of a system that count something.
fn sample(cpu_user: u64, cpu_idle: u64, sectors_read: u64, rx_bytes: u64) -> Samples {
    status::take_samples(
        &format!("cpu  {cpu_user} 0 0 {cpu_idle} 0 0 0 0\n"),
        &format!("   8       0 sda 0 0 {sectors_read} 0 0 0 0 0 0 0 0\n"),
        &format!(
            "Inter-|   Receive\n face |bytes\neth0: {rx_bytes} 0 0 0 0 0 0 0 0 0 0 0 0 0 0 0\n"
        ),
    )
}

const MEMINFO: &str = "MemTotal:       10000000 kB\nMemAvailable:    8000000 kB\nSwapTotal:  2000000 kB\nSwapFree:   2000000 kB\n";

fn gauges() -> Gauges {
    let load = || "1.00".to_string();
    Gauges {
        health_score: 100,
        health_reasons: Vec::new(),
        load: (load(), load(), load()),
        psi_cpu: None,
        psi_memory: None,
        psi_io: None,
        hottest: Some(("temp1".to_string(), "45".to_string())),
        battery: Some((80, "Discharging".to_string())),
        kernel: "7.1.3-1-cachyos".to_string(),
        scx: Some("disabled".to_string()),
    }
}

#[test]
fn test_build_report_computes_exact_rates_and_health_score() {
    let before = sample(1000, 9000, 1000, 1000);
    // 500 ticks of extra busy time over the interval; 100 extra sectors read
    // (100*512=51200 bytes); 2000 extra rx bytes.
    let after = sample(1500, 9000, 1100, 3000);
    let failed = status::fetch_failed_units(&ctx(), &mut FakeRunner::new());
    let r = status::build_report(
        &before,
        &after,
        2000,
        MEMINFO,
        report().disk_totals,
        gauges(),
        failed,
    );
    // total delta = 500 (busy) + 0 (idle unchanged) = 500; busy delta 500
    // -> 100%.
    assert_eq!(r.cpu_total, "100.0");
    assert_eq!(r.load.0, "1.00");
    assert_eq!(r.mem_total, 10_000_000 * 1024);
    assert_eq!(r.disk_totals.fs_kind, "ext4");
    assert_eq!(r.disk_rates.len(), 1);
    assert_eq!(r.disk_rates[0].inward, 100 * 512 / 2);
    assert_eq!(r.net_rates.len(), 1);
    assert_eq!(r.net_rates[0].inward, 2000 / 2);
    assert_eq!(r.hottest, Some(("temp1".to_string(), "45".to_string())));
    assert_eq!(r.battery, Some((80, "Discharging".to_string())));
    assert_eq!(r.kernel, "7.1.3-1-cachyos");
    assert_eq!(r.scx, Some("disabled".to_string()));
    assert_eq!(r.failed_units, None);
    assert_eq!(r.health_score, 100);
    assert_eq!(r.health_reasons, Vec::<String>::new());
}

#[test]
fn each_core_is_counted_for_itself() {
    let at = |a: u64, b: u64| {
        status::take_samples(
            &format!("cpu  {a} 0 0 {b} 0\ncpu0 {a} 0 0 0 0\ncpu1 0 0 0 0 {b}\nintr 5\n"),
            "",
            "",
        )
    };
    let (before, after) = (at(100, 100), at(200, 400));
    assert_eq!(before.cpu.len(), 3);
    assert_eq!((before.cpu[0].busy, before.cpu[0].total), (100, 200));
    let r =
        status::build_report(&before, &after, 1000, "", report().disk_totals, gauges(), Some(0));
    assert_eq!(r.cpu_total, "25.0");
    let shown: Vec<(&str, usize)> = r.cores.iter().map(|c| (c.percent.as_str(), c.bar)).collect();
    assert_eq!(shown, vec![("100.0", 20), ("0.0", 0)]);
    assert_eq!(r.mem_total, 0);
    assert!(r.disk_rates.is_empty());
}

#[test]
fn a_counter_that_was_set_back_or_is_new_has_no_rate() {
    let net = |text: &str| status::take_samples("", "", text).net;
    let before = net("eth0: 500 0 0 0 0 0 0 0 70 0\nlo: 1 0 0 0 0 0 0 0 1 0\n");
    assert_eq!(before.len(), 1);
    let after = net("eth0: 400 0 0 0 0 0 0 0 75 0\nwlan0: 9 0 0 0 0 0 0 0 9 0\n");
    let rates = badger::sys::rates(&before, &after, 500);
    assert_eq!(rates.len(), 1);
    assert_eq!((rates[0].name.as_str(), rates[0].inward, rates[0].outward), ("eth0", 0, 10));
}

#[test]
fn failed_units_are_asked_for_outside_a_sandbox_only() {
    let argv = s(&["systemctl", "--failed", "--no-legend", "--plain"]);
    let reply = "a.service loaded failed\n\nb.service loaded failed\n";
    let answer = || FakeRunner::new().with(argv.clone(), output(reply));
    let mut c = ctx();
    assert_eq!(status::fetch_failed_units(&c, &mut answer()), None);
    c.sandboxed = false;
    assert_eq!(status::fetch_failed_units(&c, &mut answer()), Some(2));
    assert_eq!(status::fetch_failed_units(&c, &mut FakeRunner::new()), None);
}

use badger::commands::purge::default_selection;
use badger::commands::shared::summarize_run;
use badger::config::Config;
use badger::ctx::Ctx;
use badger::exec::{
    execute, execute_selected, privileged_outcomes, DeleteOutcome, DryRunEffector, Effector, Hands,
    PrivilegedDelete, RealEffector, Sight, Touch,
};
use badger::host::{Entry, Host, Kind};
use badger::item::{Candidate, Group, Risk};
use badger::offline::{Offline, OUT_OF_REACH};
use badger::privilege::{HelperResult, Manifest};
use badger::purge;
use badger::rules::{Action, Applicability, CmdSpec, Commands, Detector, Rule, SelectedCommands};
use badger::rules::snapshots;
use badger::runner::{CmdOutput, FakeRunner, RealRunner, Start};
use badger::safety::deleter::{Action as Step, DeleteReport, Deleter, Metadata};
use badger::safety::journal::{AuditLog, MemoryLog, Record};
use badger::safety::protected::{Refusal, SafetyEnv};
use badger::safety::whitelist::parse;
use badger::scan::scan;

/// A machine made up for a test: every path has its parents, and a directory
/// lists what was put in it.
struct World {
    host: Host,
}

const NOW: i64 = 1_700_000_000_000_000_000;
const DAY: i64 = 86_400_000_000_000;

impl World {
    fn new() -> World {
        let mut host = Host::new();
        host.now = NOW;
        let mut world = World { host };
        world.dir(HOME);
        world
    }

    fn add(&mut self, path: &str, kind: Kind, size: u64, text: Option<&str>) {
        if self.host.find(path).is_some() {
            return;
        }
        if let Some((parent, name)) = path.rsplit_once('/') {
            let parent = if parent.is_empty() { "/" } else { parent };
            if path != "/" {
                self.add(parent, Kind::Dir, 0, None);
                for entry in self.host.entries.iter_mut() {
                    if entry.path == parent {
                        entry.names.get_or_insert_with(Vec::new).push(name.to_string());
                    }
                }
            }
        }
        let ino = self.host.entries.len() as u64 + 1;
        self.host.entries.push(Entry {
            path: path.to_string(),
            kind,
            leads_to_dir: kind == Kind::Dir,
            leads_to_file: kind == Kind::File,
            names: if kind == Kind::Dir { Some(Vec::new()) } else { None },
            size,
            modified: Some(NOW),
            text: text.map(|t| t.to_string()),
            uid: 1000,
            dev: 1,
            ino,
        });
        self.host.resolved.push((path.to_string(), path.to_string()));
    }

    fn dir(&mut self, path: &str) {
        self.add(path, Kind::Dir, 0, None);
    }

    fn file(&mut self, path: &str, size: u64) {
        self.add(path, Kind::File, size, None);
    }

    fn text(&mut self, path: &str, contents: &str) {
        self.add(path, Kind::File, contents.len() as u64, Some(contents));
    }

    fn entry(&mut self, path: &str) -> &mut Entry {
        self.host.entries.iter_mut().find(|e| e.path == path).unwrap()
    }

    fn sized_dir(&mut self, path: &str, size: u64) {
        self.add(path, Kind::Dir, size, None);
        self.entry(path).size = size;
    }

    fn age(&mut self, path: &str, days: i64) {
        self.entry(path).modified = Some(NOW - days * DAY);
    }
}

const ROOT: &str = "/sandbox/root";
const HOME: &str = "/sandbox/root/home/user";

fn s(list: &[&str]) -> Vec<String> {
    list.iter().map(|x| x.to_string()).collect()
}

fn home(rel: &str) -> String {
    format!("{HOME}/{rel}")
}

fn ctx() -> Ctx {
    Ctx {
        root: ROOT.to_string(),
        home: HOME.to_string(),
        config_dir: "/sandbox/config".to_string(),
        state_dir: "/sandbox/state".to_string(),
        dry_run: false,
        debug: false,
        config: Config::default(),
        sandboxed: true,
        available_commands: None,
        fake_command_output: None,
    }
}

fn env() -> SafetyEnv {
    SafetyEnv {
        root: ROOT.to_string(),
        home: HOME.to_string(),
        mount_points: Vec::new(),
        euid: 1000,
    }
}

fn output(stdout: &str) -> CmdOutput {
    CmdOutput { success: true, stdout: stdout.to_string(), stderr: String::new() }
}

/// A disk held in memory, whose deletions go the way real ones do.
struct Disk {
    world: World,
    helper: Result<Vec<HelperResult>, String>,
}

impl Disk {
    fn new(world: World) -> Disk {
        Disk { world, helper: Err("no helper".to_string()) }
    }

    fn has(&self, path: &str) -> bool {
        self.world.host.find(path).is_some()
    }
}

fn parent_of(path: &str) -> String {
    path.rsplit_once('/').unwrap().0.to_string()
}

fn name_of(path: &str) -> String {
    path.rsplit_once('/').unwrap().1.to_string()
}

fn take_away(world: &mut World, path: &str) -> Option<String> {
    world.host.entries.retain(|e| e.path != path);
    let parent = world.entry(&parent_of(path));
    parent.names.as_mut().unwrap().retain(|n| *n != name_of(path));
    None
}

fn delete_tree(world: &mut World, path: &str) -> DeleteReport {
    let (mut deleter, mut next) = Deleter::start(path);
    loop {
        next = match next {
            Step::Stat(p) => {
                let found = match world.host.find(&p) {
                    Some(e) => Ok(Metadata {
                        is_dir: e.kind == Kind::Dir,
                        dev: e.dev,
                        blocks: e.size / 512,
                    }),
                    None => Err("No such file or directory".to_string()),
                };
                deleter.on_stat(found)
            }
            Step::List(p) => {
                let names = world.host.list(&p).unwrap();
                deleter.on_list(Ok(names.iter().map(|n| Ok(format!("{p}/{n}"))).collect()))
            }
            Step::Unlink(p) => deleter.on_unlink(take_away(world, &p)),
            Step::RemoveDir(p) => {
                assert!(world.host.list(&p).unwrap().is_empty(), "{p} is not empty");
                deleter.on_remove_dir(take_away(world, &p))
            }
            Step::Done => return deleter.report,
        };
    }
}

impl Hands for Disk {
    fn look(&mut self, _path: &str, _allowed: &Vec<String>) -> Result<Sight, String> {
        Ok(Sight { mount_points: Vec::new(), euid: 1000, host: self.world.host.clone() })
    }

    fn delete_tree(&mut self, path: &str) -> DeleteReport {
        delete_tree(&mut self.world, path)
    }

    fn ask_helper(&mut self, _manifest: &Manifest) -> Result<Vec<HelperResult>, String> {
        self.helper.clone()
    }
}

fn rule(id: &'static str, requires_sudo: bool, prefixes: &[&'static str]) -> Rule {
    Rule {
        id,
        title: "test rule",
        risk: Risk::Safe,
        requires_sudo,
        applicable: Applicability::Always,
        allowed_prefixes: prefixes.to_vec(),
        detector: Detector::Globs(Vec::new()),
        action: Action::DeletePaths,
        notes: "",
    }
}

fn delete_rule(id: &'static str, requires_sudo: bool) -> Rule {
    rule(id, requires_sudo, &["~/.cache/target"])
}

fn group_with_one_candidate(rule_id: &str, path: &str, bytes: u64) -> Group {
    Group {
        rule_id: rule_id.to_string(),
        title: "test".to_string(),
        risk: Risk::Safe,
        requires_sudo: false,
        candidates: vec![Candidate::new(
            Some(path.to_string()),
            "target".to_string(),
            bytes,
            Risk::Safe,
        )],
        skipped: Vec::new(),
    }
}

fn target() -> String {
    home(".cache/target")
}

fn with_target() -> Disk {
    let mut w = World::new();
    w.file(&format!("{}/f.txt", target()), 4096);
    Disk::new(w)
}

#[test]
fn test_dry_run_effector_journals_without_touching_filesystem() {
    let c = ctx();
    let mut log = MemoryLog::new();
    let summary = execute(
        &vec![group_with_one_candidate("test.rule", &target(), 4096)],
        &vec![delete_rule("test.rule", false)],
        &c,
        &c.config,
        &Host::new(),
        &mut DryRunEffector::new(),
        &mut log,
        "run-1",
        true,
    );
    assert_eq!(summary.bytes_freed, 4096);
    assert_eq!(log.records.len(), 1);
    assert!(log.records[0].dry_run);
    assert_eq!(log.records[0].outcome, "would delete");
}

#[test]
fn test_real_effector_deletes_and_journals() {
    let c = ctx();
    let mut log = MemoryLog::new();
    let mut effector = RealEffector::new(&c, FakeRunner::new(), with_target());
    let summary = execute(
        &vec![group_with_one_candidate("test.rule", &target(), 4096)],
        &vec![delete_rule("test.rule", false)],
        &c,
        &c.config,
        &Host::new(),
        &mut effector,
        &mut log,
        "run-1",
        false,
    );
    assert_eq!(summary.bytes_freed, 4096);
    assert!(!effector.hands().has(&target()));
    assert_eq!(log.records[0].outcome, "ok");
    assert!(!log.records[0].dry_run);
}

/// A place where nothing can be put.
struct Full;

impl AuditLog for Full {
    fn append(&mut self, _record: &Record) -> Result<(), String> {
        Err("not a directory".to_string())
    }

    fn read_all(&mut self) -> Result<Vec<Record>, String> {
        Ok(Vec::new())
    }
}

#[test]
fn test_execute_continues_and_warns_when_journal_append_fails() {
    let c = ctx();
    let mut log = Full;
    let mut effector = RealEffector::new(&c, FakeRunner::new(), with_target());
    let summary = execute(
        &vec![group_with_one_candidate("test.rule", &target(), 4096)],
        &vec![delete_rule("test.rule", false)],
        &c,
        &c.config,
        &Host::new(),
        &mut effector,
        &mut log,
        "run-1",
        false,
    );
    assert!(!effector.hands().has(&target()), "the delete must still happen");
    assert_eq!(summary.actions, 1);
    assert_eq!(summary.bytes_freed, 4096, "the freed-bytes summary must still be reported");
    assert_eq!(
        summary.journal_warnings.len(),
        1,
        "the failed audit-trail write must be surfaced as a warning"
    );
}

#[test]
fn a_failing_log_says_why() {
    let mut log = MemoryLog::new();
    log.failure = Some("full".to_string());
    let record = Record::now(
        "run".to_string(),
        "clean".to_string(),
        "r".to_string(),
        "delete".to_string(),
        None,
        None,
        false,
        false,
        0,
        "ok".to_string(),
    );
    assert_eq!(log.append(&record), Err("full".to_string()));
}

#[test]
fn test_sudo_delete_paths_rule_is_never_executed() {
    let c = ctx();
    let mut log = MemoryLog::new();
    let mut group = group_with_one_candidate("test.sudo_rule", &target(), 100);
    group.requires_sudo = true;
    let mut effector = RealEffector::new(&c, FakeRunner::new(), with_target());
    let summary = execute(
        &vec![group],
        &vec![delete_rule("test.sudo_rule", true)],
        &c,
        &c.config,
        &Host::new(),
        &mut effector,
        &mut log,
        "run-1",
        false,
    );
    assert_eq!(summary.actions, 0);
    assert!(effector.hands().has(&target()));
    assert!(log.records.is_empty());
}

#[test]
fn test_moderate_group_is_never_executed() {
    let c = ctx();
    let mut group = group_with_one_candidate("test.moderate_rule", &target(), 100);
    group.risk = Risk::Moderate;
    group.candidates[0].selectable = true;
    let mut effector = RealEffector::new(&c, FakeRunner::new(), with_target());
    let summary = execute(
        &vec![group],
        &vec![delete_rule("test.moderate_rule", false)],
        &c,
        &c.config,
        &Host::new(),
        &mut effector,
        &mut MemoryLog::new(),
        "run-1",
        false,
    );
    assert_eq!(summary.actions, 0);
    assert!(effector.hands().has(&target()));
}

fn cmd_rule(id: &'static str, action: Action, risk: Risk) -> (Rule, Group) {
    let mut r = rule(id, true, &[]);
    r.action = action;
    r.risk = risk;
    let g = Group {
        rule_id: id.to_string(),
        title: "test cmd rule".to_string(),
        risk,
        requires_sudo: true,
        candidates: Vec::new(),
        skipped: Vec::new(),
    };
    (r, g)
}

#[test]
fn test_cmd_action_sudo_spec_is_skipped_in_sandbox_with_a_note() {
    let c = ctx();
    assert!(c.sandboxed);
    let (r, g) = cmd_rule("test.cmd_rule", Action::Cmd(Commands::Journald), Risk::Safe);
    let mut log = MemoryLog::new();
    let mut effector = RealEffector::new(&c, FakeRunner::new(), with_target());
    let summary = execute(
        &vec![g],
        &vec![r],
        &c,
        &c.config,
        &Host::new(),
        &mut effector,
        &mut log,
        "run-1",
        false,
    );
    assert_eq!(summary.actions, 1);
    assert!(log.records[0].outcome.contains("skipped"));
    let (ran, skipped, notes) = summarize_run(&log.records, "run-1");
    assert_eq!((ran, skipped, notes.len()), (0, 1, 1));
}

#[test]
fn test_cmd_action_runs_via_command_runner_with_exact_argv() {
    let c = ctx();
    let (mut r, mut g) = cmd_rule("test.cmd_rule", Action::Cmd(Commands::FontCache), Risk::Safe);
    r.requires_sudo = false;
    g.requires_sudo = false;
    let mut log = MemoryLog::new();
    let fake = FakeRunner::new().with(s(&["fc-cache", "-f"]), output(""));
    let mut effector = RealEffector::new(&c, fake, with_target());
    execute(
        &vec![g],
        &vec![r],
        &c,
        &c.config,
        &Host::new(),
        &mut effector,
        &mut log,
        "run-1",
        false,
    );
    assert_eq!(log.records[0].argv, Some(s(&["fc-cache", "-f"])));
    assert_eq!(log.records[0].outcome, "ok");
}

#[test]
fn test_execute_selected_deletes_a_moderate_candidate_when_selected() {
    let c = ctx();
    let mut group = group_with_one_candidate("test.moderate_rule", &target(), 4096);
    group.risk = Risk::Moderate;
    let mut effector = RealEffector::new(&c, FakeRunner::new(), with_target());
    let summary = execute_selected(
        &vec![group],
        &vec![(0usize, 0usize)],
        &vec![delete_rule("test.moderate_rule", false)],
        &c,
        &c.config,
        &Host::new(),
        &mut effector,
        &mut MemoryLog::new(),
        "run-1",
        false,
    );
    assert!(summary.bytes_freed > 0);
    assert!(!effector.hands().has(&target()), "selected Moderate candidate must delete");
}

#[test]
fn test_execute_selected_ignores_a_safe_candidate_not_in_the_selection() {
    let c = ctx();
    let mut effector = RealEffector::new(&c, FakeRunner::new(), with_target());
    let summary = execute_selected(
        &vec![group_with_one_candidate("test.rule", &target(), 100)],
        &vec![],
        &vec![delete_rule("test.rule", false)],
        &c,
        &c.config,
        &Host::new(),
        &mut effector,
        &mut MemoryLog::new(),
        "run-1",
        false,
    );
    assert_eq!(summary.actions, 0);
    assert!(effector.hands().has(&target()));
}

#[test]
fn ticking_all_that_is_selectable_is_what_yes_does() {
    let c = open_ctx();
    let (orphans, mut packages) = cmd_selected_rule_and_group("test.orphans");
    packages.risk = Risk::Safe;
    packages.candidates[0].selectable = true;
    packages.candidates[1].selectable = false;
    let (journald, mut logs) = cmd_rule_with_candidate("test.logs");
    logs.risk = Risk::Safe;
    logs.candidates[0].selectable = true;
    let rules = vec![delete_rule("test.rule", false), orphans, journald];
    let list = vec![group_with_one_candidate("test.rule", &target(), 4096), packages, logs];
    let selection = default_selection(&list);
    assert_eq!(selection, vec![(0, 0), (1, 0), (2, 0)]);
    let fake = || {
        FakeRunner::new().with(s(&["sudo", "journalctl", "--vacuum-size=100M"]), output(""))
    };
    for dry_run in [false, true] {
        let (mut by_itself, mut ticked) = (MemoryLog::new(), MemoryLog::new());
        let mut one = RealEffector::new(&c, fake(), with_target());
        let mut other = RealEffector::new(&c, fake(), with_target());
        let a = execute(
            &list, &rules, &c, &c.config, &Host::new(), &mut one, &mut by_itself, "run", dry_run,
        );
        let b = execute_selected(
            &list,
            &selection,
            &rules,
            &c,
            &c.config,
            &Host::new(),
            &mut other,
            &mut ticked,
            "run",
            dry_run,
        );
        assert_eq!((a.bytes_freed, a.actions), (b.bytes_freed, b.actions));
        assert_eq!(a.actions, 3);
        let timeless = |log: MemoryLog| -> Vec<Record> {
            let mut list = log.records;
            list.iter_mut().for_each(|r| r.ts = String::new());
            list
        };
        assert_eq!(timeless(by_itself), timeless(ticked));
    }
}

/// Not a sandbox, so that commands which need root privilege go to the runner.
fn open_ctx() -> Ctx {
    let mut c = ctx();
    c.sandboxed = false;
    c.config.clean.journal_max_size = "100M".to_string();
    c
}

fn cmd_rule_with_candidate(id: &'static str) -> (Rule, Group) {
    let (r, mut g) = cmd_rule(id, Action::Cmd(Commands::Journald), Risk::Moderate);
    g.candidates =
        vec![Candidate::new(None, "informational".to_string(), 4096, Risk::Moderate)];
    (r, g)
}

fn selected(
    c: &Ctx,
    pair: (Rule, Group),
    selection: Vec<(usize, usize)>,
    runner: FakeRunner,
) -> (usize, Vec<Record>) {
    let mut log = MemoryLog::new();
    let mut effector = RealEffector::new(c, runner, with_target());
    let (r, g) = pair;
    let summary = execute_selected(
        &vec![g],
        &selection,
        &vec![r],
        c,
        &c.config,
        &Host::new(),
        &mut effector,
        &mut log,
        "run-1",
        false,
    );
    (summary.actions, log.records)
}

#[test]
fn test_execute_selected_runs_cmd_rule_only_when_its_candidate_is_selected() {
    let fake = FakeRunner::new()
        .with(s(&["sudo", "journalctl", "--vacuum-size=100M"]), output(""));
    let pair = cmd_rule_with_candidate("test.cmd_selected");
    let (actions, records) = selected(&open_ctx(), pair, vec![(0, 0)], fake);
    assert_eq!(actions, 1);
    assert_eq!(records[0].outcome, "ok");
    assert_eq!(records[0].argv, Some(s(&["journalctl", "--vacuum-size=100M"])));
}

#[test]
fn test_execute_selected_skips_cmd_rule_when_its_candidate_is_not_selected() {
    let pair = cmd_rule_with_candidate("test.cmd_unselected");
    let (actions, _) = selected(&open_ctx(), pair, vec![], FakeRunner::new());
    assert_eq!(actions, 0);
}

fn cmd_selected_rule_and_group(id: &'static str) -> (Rule, Group) {
    let action = Action::CmdSelected(SelectedCommands::PacmanOrphans);
    let (r, mut g) = cmd_rule(id, action, Risk::Moderate);
    g.candidates = vec![
        Candidate::new(None, "pkg-a".to_string(), 0, Risk::Moderate),
        Candidate::new(None, "pkg-b".to_string(), 0, Risk::Moderate),
    ];
    (r, g)
}

#[test]
fn test_execute_selected_cmd_selected_builds_command_from_only_the_selected_candidates() {
    let fake = FakeRunner::new()
        .with(s(&["sudo", "pacman", "-Rns", "--noconfirm", "pkg-b"]), output(""));
    let pair = cmd_selected_rule_and_group("test.cmd_selected");
    let (actions, records) = selected(&open_ctx(), pair, vec![(0, 1)], fake);
    assert_eq!(actions, 1);
    assert_eq!(records[0].argv, Some(s(&["pacman", "-Rns", "--noconfirm", "pkg-b"])));
    assert_eq!(records[0].outcome, "ok");
}

#[test]
fn test_execute_selected_cmd_selected_runs_nothing_when_selection_is_empty() {
    let pair = cmd_selected_rule_and_group("test.cmd_selected_empty");
    let (actions, records) = selected(&open_ctx(), pair, vec![], FakeRunner::new());
    assert_eq!(actions, 0);
    assert!(records.is_empty());
}

#[test]
fn a_command_that_fails_is_told_of() {
    let mut failed = output("");
    failed.success = false;
    failed.stderr = " target not found \n".to_string();
    let fake = FakeRunner::new()
        .with(s(&["sudo", "pacman", "-Rns", "--noconfirm", "pkg-b"]), failed);
    let pair = cmd_selected_rule_and_group("test.cmd_selected");
    let (_, records) = selected(&open_ctx(), pair, vec![(0, 1)], fake);
    assert_eq!(records[0].outcome, "error: target not found");
}

#[test]
fn test_execute_selected_cmd_selected_dry_run_prints_exact_argv() {
    let c = ctx();
    let (r, g) = cmd_selected_rule_and_group("test.cmd_selected_dry_run");
    let mut log = MemoryLog::new();
    let summary = execute_selected(
        &vec![g],
        &vec![(0usize, 1usize)],
        &vec![r],
        &c,
        &c.config,
        &Host::new(),
        &mut DryRunEffector::new(),
        &mut log,
        "run-1",
        true,
    );
    assert_eq!(summary.actions, 1);
    assert_eq!(log.records[0].outcome, "would run: pacman -Rns --noconfirm pkg-b");
    assert!(log.records[0].dry_run);
}

#[test]
fn test_execute_ignores_cmd_selected_when_no_candidate_is_selectable() {
    let c = ctx();
    let (r, mut g) = cmd_selected_rule_and_group("test.cmd_selected_auto");
    assert!(g.candidates.iter().all(|x| !x.selectable));
    g.risk = Risk::Safe;
    let mut effector = RealEffector::new(&c, FakeRunner::new(), with_target());
    let summary = execute(
        &vec![g],
        &vec![r],
        &c,
        &c.config,
        &Host::new(),
        &mut effector,
        &mut MemoryLog::new(),
        "run-1",
        false,
    );
    assert_eq!(summary.actions, 0);
}

fn root_target() -> String {
    format!("{ROOT}/var/cache/target")
}

fn sudo_delete_rule_and_group(bytes: u64) -> (Rule, Group) {
    let r = rule("test.sudo_delete", true, &["/var/cache/target"]);
    let mut g = group_with_one_candidate("test.sudo_delete", &root_target(), bytes);
    g.requires_sudo = true;
    (r, g)
}

#[test]
fn test_execute_selected_dry_run_reports_privileged_delete_without_touching_disk() {
    let c = ctx();
    let mut w = World::new();
    w.dir(&root_target());
    let (r, g) = sudo_delete_rule_and_group(4096);
    let mut log = MemoryLog::new();
    let summary = execute_selected(
        &vec![g],
        &vec![(0usize, 0usize)],
        &vec![r],
        &c,
        &c.config,
        &w.host,
        &mut DryRunEffector::new(),
        &mut log,
        "run-1",
        true,
    );
    assert_eq!(summary.bytes_freed, 4096);
    assert_eq!(log.records[0].outcome, "would delete");
    assert!(log.records[0].sudo);
    assert!(log.records[0].dry_run);
}

#[test]
fn test_execute_selected_privileged_delete_is_skipped_with_a_note_when_sandboxed() {
    let c = ctx();
    let mut w = World::new();
    w.dir(&root_target());
    let host = w.host.clone();
    let (r, g) = sudo_delete_rule_and_group(100);
    let mut log = MemoryLog::new();
    let mut effector = RealEffector::new(&c, FakeRunner::new(), Disk::new(w));
    let summary = execute_selected(
        &vec![g],
        &vec![(0usize, 0usize)],
        &vec![r],
        &c,
        &c.config,
        &host,
        &mut effector,
        &mut log,
        "run-1",
        false,
    );
    assert_eq!(summary.actions, 1);
    assert_eq!(summary.bytes_freed, 0);
    assert!(
        effector.hands().has(&root_target()),
        "sandboxed run must never touch real root paths"
    );
    assert!(log.records[0].outcome.contains("skipped"));
    assert!(log.records[0].sudo);
}

#[test]
fn the_helper_is_asked_outside_a_sandbox() {
    let mut c = ctx();
    c.sandboxed = false;
    let mut w = World::new();
    w.dir(&root_target());
    let host = w.host.clone();
    let mut disk = Disk::new(w);
    disk.helper = Ok(vec![HelperResult {
        rule_id: "test.sudo_delete".to_string(),
        path: root_target(),
        bytes_freed: 77,
        outcome: "ok".to_string(),
    }]);
    let (r, g) = sudo_delete_rule_and_group(100);
    let mut log = MemoryLog::new();
    let mut effector = RealEffector::new(&c, FakeRunner::new(), disk);
    let summary = execute_selected(
        &vec![g],
        &vec![(0usize, 0usize)],
        &vec![r],
        &c,
        &c.config,
        &host,
        &mut effector,
        &mut log,
        "run-1",
        false,
    );
    assert_eq!(summary.bytes_freed, 77);
    assert_eq!(log.records[0].outcome, "ok");
}

fn answer(bytes_freed: u64) -> HelperResult {
    HelperResult {
        rule_id: "test.sudo_delete".to_string(),
        path: root_target(),
        bytes_freed,
        outcome: "ok".to_string(),
    }
}

fn op(path: &str) -> PrivilegedDelete {
    PrivilegedDelete {
        rule_id: "test.sudo_delete".to_string(),
        path: path.to_string(),
        expected_dev: 1,
        expected_ino: 2,
        estimated_bytes: 3,
    }
}

#[test]
fn a_path_that_the_helper_does_not_answer_for_is_an_error() {
    let mut c = ctx();
    c.sandboxed = false;
    let mut disk = Disk::new(World::new());
    disk.helper = Ok(vec![answer(77)]);
    let mut effector = RealEffector::new(&c, FakeRunner::new(), disk);
    let got = effector.delete_privileged("run-1", &vec![op("/a"), op("/b"), op("/c")]);
    assert_eq!(got.len(), 3);
    assert_eq!((got[0].bytes_freed, got[0].outcome.as_str()), (77, "ok"));
    for unanswered in &got[1..] {
        assert_eq!(unanswered.bytes_freed, 0);
        assert_eq!(unanswered.outcome, "error: the privileged helper gave no answer");
    }
}

#[test]
fn answers_that_nobody_asked_for_are_dropped() {
    let results = Ok(vec![answer(1), answer(2), answer(3)]);
    let got = privileged_outcomes(&results, 2);
    assert_eq!(got.iter().map(|o| o.bytes_freed).collect::<Vec<_>>(), vec![1, 2]);
}

#[test]
fn every_path_for_the_helper_is_on_record_when_it_is_silent() {
    let mut c = ctx();
    c.sandboxed = false;
    let mut w = World::new();
    w.dir(&root_target());
    let host = w.host.clone();
    let mut disk = Disk::new(w);
    disk.helper = Ok(Vec::new());
    let (r, g) = sudo_delete_rule_and_group(100);
    let mut log = MemoryLog::new();
    let mut effector = RealEffector::new(&c, FakeRunner::new(), disk);
    let summary = execute_selected(
        &vec![g],
        &vec![(0usize, 0usize)],
        &vec![r],
        &c,
        &c.config,
        &host,
        &mut effector,
        &mut log,
        "run-1",
        false,
    );
    assert_eq!((summary.actions, summary.bytes_freed), (1, 0));
    assert_eq!(log.records[0].outcome, "error: the privileged helper gave no answer");
    assert_eq!(log.records[0].paths, Some(vec![root_target()]));
    let (_, _, notes) = summarize_run(&log.records, "run-1");
    assert_eq!(notes.len(), 1);
}

#[test]
fn a_helper_that_fails_is_an_error_for_every_path() {
    let mut c = ctx();
    c.sandboxed = false;
    let mut effector = RealEffector::new(&c, FakeRunner::new(), Disk::new(World::new()));
    let got = effector.delete_privileged("run-1", &vec![op("/a"), op("/b")]);
    assert_eq!(got.len(), 2);
    assert!(got.iter().all(|o| o.bytes_freed == 0 && o.outcome == "error: no helper"));
}

/// Counts the looks and the deletions.
struct Careful {
    disk: Disk,
    looks: Vec<String>,
    deletions: Vec<String>,
}

impl Hands for Careful {
    fn look(&mut self, path: &str, allowed: &Vec<String>) -> Result<Sight, String> {
        self.looks.push(path.to_string());
        self.disk.look(path, allowed)
    }

    fn delete_tree(&mut self, path: &str) -> DeleteReport {
        assert_eq!(self.looks.last().map(String::as_str), Some(path));
        self.deletions.push(path.to_string());
        self.disk.delete_tree(path)
    }

    fn ask_helper(&mut self, manifest: &Manifest) -> Result<Vec<HelperResult>, String> {
        self.disk.ask_helper(manifest)
    }
}

#[test]
fn every_deletion_follows_a_look_at_the_same_path() {
    let c = ctx();
    let cache = format!("{HOME}/.cache/target");
    let key = format!("{HOME}/.ssh/id_rsa");
    let mut w = World::new();
    w.file(&format!("{cache}/a"), 512);
    w.file(&key, 512);
    let hands = Careful { disk: Disk::new(w), looks: Vec::new(), deletions: Vec::new() };
    let mut effector = RealEffector::new(&c, FakeRunner::new(), hands);
    let allowed = vec![HOME.to_string()];
    assert_eq!(effector.delete(false, &allowed, &cache, 0).outcome, "ok");
    assert!(effector.delete(false, &allowed, &key, 0).outcome.starts_with("refused: "));
    let hands = effector.hands();
    assert_eq!(hands.looks, vec![cache.clone(), key.clone()]);
    assert_eq!(hands.deletions, vec![cache]);
    assert!(hands.disk.has(&key));
}

#[test]
fn nothing_is_deleted_on_a_machine_out_of_reach() {
    let mut c = ctx();
    c.sandboxed = false;
    let shell = Offline::<Start>::new();
    let mut effector = RealEffector::new(&c, RealRunner::new(shell), Offline::<Touch>::new());
    let got = effector.delete(false, &vec![HOME.to_string()], "/x", 5);
    assert_eq!(got, DeleteOutcome { bytes_freed: 0, outcome: format!("error: {OUT_OF_REACH}") });
    let got = effector.delete_privileged("run-1", &vec![op("/a")]);
    assert_eq!(got[0].outcome, format!("error: {OUT_OF_REACH}"));
    let cmd = CmdSpec {
        argv: vec!["true".to_string()],
        sudo: false,
        label: String::new(),
    };
    assert_eq!(effector.run(&cmd).outcome, format!("error: failed to run true: {OUT_OF_REACH}"));
}

#[test]
fn test_execute_selected_manual_rule_sudo_spec_is_skipped_in_sandbox_alongside_a_refusal() {
    let c = ctx();
    assert!(c.sandboxed);
    let group = Group {
        rule_id: "snapshots.snapper_manual".to_string(),
        title: "Snapper snapshots (manual delete)".to_string(),
        risk: Risk::Risky,
        requires_sudo: true,
        candidates: vec![
            Candidate::new(None, "root: #10 [pre]".to_string(), 0, Risk::Risky),
            Candidate::new(None, "home: #3".to_string(), 0, Risk::Risky),
        ],
        skipped: Vec::new(),
    };
    let mut log = MemoryLog::new();
    let mut effector = RealEffector::new(&c, FakeRunner::new(), with_target());
    let summary = execute_selected(
        &vec![group],
        &vec![(0usize, 0usize), (0usize, 1usize)],
        &snapshots::rules(),
        &c,
        &c.config,
        &Host::new(),
        &mut effector,
        &mut log,
        "run-1",
        false,
    );
    assert_eq!(summary.actions, 2);
    assert_eq!(log.records.len(), 2);
    assert!(log.records.iter().any(|r| r.outcome.contains("#10")));
    assert!(log
        .records
        .iter()
        .any(|r| r.outcome == "skipped: sudo is never run in a sandbox"));
    let (_, _, notes) = summarize_run(&log.records, "run-1");
    assert_eq!(notes.len(), 2);
}

// -------------------------------------------------------------------- scan

fn glob_rule() -> Rule {
    let mut r = rule("test.thumbnails", false, &["~/.cache/thumbnails"]);
    r.detector = Detector::Globs(vec!["~/.cache/thumbnails"]);
    r
}

fn found(r: Rule, c: &Ctx, world: &World, whitelist: &str) -> Vec<Group> {
    let wl = parse(whitelist, HOME).unwrap();
    scan(&vec![r], c, &c.config, &wl, &env(), &world.host, &mut FakeRunner::new())
}

#[test]
fn test_scan_finds_a_glob_candidate_with_correct_bytes() {
    let mut w = World::new();
    w.sized_dir(&home(".cache/thumbnails"), 4096);
    let groups = found(glob_rule(), &ctx(), &w, "");
    assert_eq!(groups.len(), 1);
    assert_eq!(groups[0].rule_id, "test.thumbnails");
    assert_eq!(groups[0].candidates.len(), 1);
    assert_eq!(groups[0].candidates[0].bytes, 4096);
    assert!(groups[0].candidates[0].selectable);
    assert!(groups[0].skipped.is_empty());
}

#[test]
fn test_scan_omits_candidate_when_glob_target_missing() {
    let groups = found(glob_rule(), &ctx(), &World::new(), "");
    assert_eq!(groups[0].candidates.len(), 0);
    assert_eq!(groups[0].skipped.len(), 0);
}

#[test]
fn test_scan_wildcard_glob_expands_matching_entries_only() {
    let mut w = World::new();
    w.file(&home("pkgcache/a.part"), 1);
    w.file(&home("pkgcache/b.part"), 2);
    w.file(&home("pkgcache/keep.txt"), 3);
    let mut r = rule("test.partials", false, &["~/pkgcache"]);
    r.detector = Detector::Globs(vec!["~/pkgcache/*.part"]);
    let groups = found(r, &ctx(), &w, "");
    let mut labels: Vec<String> =
        groups[0].candidates.iter().map(|c| c.label.clone()).collect();
    labels.sort();
    assert_eq!(labels, vec!["~/pkgcache/a.part", "~/pkgcache/b.part"]);
}

#[test]
fn test_scan_refuses_denylisted_path_and_records_reason() {
    let mut w = World::new();
    w.file(&home(".ssh/id_rsa"), 6);
    let mut r = rule("test.ssh", false, &["~"]);
    r.detector = Detector::Globs(vec!["~/.ssh"]);
    let groups = found(r, &ctx(), &w, "");
    assert!(groups[0].candidates.is_empty());
    assert_eq!(
        groups[0].skipped,
        vec![("~/.ssh".to_string(), Refusal::DenyListed.message())]
    );
}

#[test]
fn test_scan_greys_out_whitelisted_candidate() {
    let mut w = World::new();
    w.dir(&home(".cache/thumbnails"));
    let groups = found(glob_rule(), &ctx(), &w, "~/.cache/thumbnails");
    assert_eq!(groups[0].candidates.len(), 1);
    assert!(groups[0].candidates[0].whitelisted);
    assert!(!groups[0].candidates[0].selectable);
}

#[test]
fn test_scan_omits_rule_when_not_applicable() {
    let mut r = rule("test.needs-cmd", false, &[]);
    r.applicable = Applicability::CommandExists("does-not-exist-anywhere");
    assert!(found(r, &ctx(), &World::new(), "").is_empty());
}

#[test]
fn test_scan_command_exists_true_when_listed_in_sandboxed_override() {
    let mut c = ctx();
    c.available_commands = Some(s(&["paccache"]));
    let mut r = rule("test.paccache", false, &[]);
    r.applicable = Applicability::CommandExists("paccache");
    assert_eq!(found(r, &c, &World::new(), "").len(), 1);
}

#[test]
fn test_scan_command_exists_any_matches_on_the_second_of_several_names() {
    let mut c = ctx();
    c.available_commands = Some(s(&["docker"]));
    let mut r = rule("test.podman_or_docker", false, &[]);
    r.risk = Risk::Moderate;
    r.applicable = Applicability::CommandExistsAny(vec!["podman", "docker"]);
    assert_eq!(found(r, &c, &World::new(), "").len(), 1);
}

#[test]
fn test_scan_command_exists_any_omits_rule_when_none_present() {
    let mut r = rule("test.podman_or_docker_absent", false, &[]);
    r.risk = Risk::Moderate;
    r.applicable = Applicability::CommandExistsAny(vec!["podman", "docker"]);
    assert!(found(r, &ctx(), &World::new(), "").is_empty());
}

#[test]
fn test_cmd_action_candidate_is_sized_but_never_safety_checked_or_whitelisted() {
    let mut w = World::new();
    w.sized_dir(&home("varcache"), 4096);
    let mut r = rule("test.cmd", true, &[]);
    r.detector = Detector::Globs(vec!["~/varcache"]);
    r.action = Action::Cmd(Commands::FontCache);
    let groups = found(r, &ctx(), &w, "~/varcache");
    assert_eq!(groups[0].candidates.len(), 1);
    assert_eq!(groups[0].candidates[0].bytes, 4096);
    assert!(!groups[0].candidates[0].whitelisted);
    assert!(groups[0].skipped.is_empty());
}

// ------------------------------------------------------------------- purge

fn artifacts(world: &World, whitelist: &str) -> Vec<Group> {
    let c = ctx();
    let wl = parse(whitelist, HOME).unwrap();
    purge::scan(&c, &c.config, &wl, &env(), &world.host)
}

fn group<'a>(groups: &'a [Group], id: &str) -> &'a Group {
    groups.iter().find(|g| g.rule_id == id).unwrap()
}

fn labels(groups: &[Group], id: &str) -> Vec<String> {
    let mut list: Vec<String> =
        group(groups, id).candidates.iter().map(|c| c.label.clone()).collect();
    list.sort();
    list
}

fn old_project(w: &mut World, name: &str, marker: &str, artifact: &str) {
    w.file(&home(&format!("dev/{name}/{marker}")), 1);
    w.dir(&home(&format!("dev/{name}/{artifact}")));
    w.age(&home(&format!("dev/{name}")), 30);
}

#[test]
fn test_finds_node_modules_with_sibling_package_json() {
    let mut w = World::new();
    old_project(&mut w, "site", "package.json", "node_modules/left-pad");
    assert_eq!(
        labels(&artifacts(&w, ""), "purge.node_modules"),
        vec!["~/dev/site/node_modules"]
    );
}

#[test]
fn test_target_without_sibling_cargo_toml_is_not_matched() {
    let mut w = World::new();
    w.dir(&home("dev/random/target"));
    assert!(labels(&artifacts(&w, ""), "purge.cargo_target").is_empty());
}

#[test]
fn test_finds_cargo_target_with_sibling_cargo_toml() {
    let mut w = World::new();
    old_project(&mut w, "rustapp", "Cargo.toml", "target/debug");
    assert_eq!(
        labels(&artifacts(&w, ""), "purge.cargo_target"),
        vec!["~/dev/rustapp/target"]
    );
}

#[test]
fn test_finds_venv_with_pyvenv_cfg_inside_but_not_without_it() {
    let mut w = World::new();
    old_project(&mut w, "pyapp", ".venv/pyvenv.cfg", "other_venv_lookalike");
    assert_eq!(labels(&artifacts(&w, ""), "purge.py_venv"), vec!["~/dev/pyapp/.venv"]);
}

#[test]
fn test_finds_dist_and_build_gated_by_setup_py_or_package_json() {
    let mut w = World::new();
    old_project(&mut w, "node-thing", "package.json", "dist");
    old_project(&mut w, "py-thing", "setup.py", "build");
    w.dir(&home("dev/random-dir/dist"));
    assert_eq!(
        labels(&artifacts(&w, ""), "purge.dist_build"),
        vec!["~/dev/node-thing/dist", "~/dev/py-thing/build"]
    );
}

#[test]
fn test_finds_next_build_cache_with_sibling_package_json() {
    let mut w = World::new();
    old_project(&mut w, "nextapp", "package.json", ".next");
    assert_eq!(labels(&artifacts(&w, ""), "purge.next_build").len(), 1);
}

#[test]
fn test_finds_pycache_anywhere_without_gating() {
    let mut w = World::new();
    w.dir(&home("dev/a/b/__pycache__"));
    w.dir(&home("dev/__pycache__"));
    assert_eq!(labels(&artifacts(&w, ""), "purge.pycache").len(), 2);
}

#[test]
fn test_finds_gradle_cache_with_sibling_build_gradle() {
    let mut w = World::new();
    old_project(&mut w, "gradleapp", "build.gradle.kts", ".gradle");
    w.dir(&home("dev/notgradle/.gradle"));
    assert_eq!(labels(&artifacts(&w, ""), "purge.gradle"), vec!["~/dev/gradleapp/.gradle"]);
}

#[test]
fn test_finds_mypy_and_pytest_caches() {
    let mut w = World::new();
    w.dir(&home("dev/pyapp/.mypy_cache"));
    w.dir(&home("dev/pyapp/.pytest_cache"));
    let groups = artifacts(&w, "");
    assert_eq!(labels(&groups, "purge.mypy_cache").len(), 1);
    assert_eq!(labels(&groups, "purge.pytest_cache").len(), 1);
}

#[test]
fn test_does_not_recurse_into_a_matched_node_modules() {
    let mut w = World::new();
    old_project(&mut w, "site", "package.json", "node_modules/some-pkg/node_modules/inner");
    assert_eq!(labels(&artifacts(&w, ""), "purge.node_modules").len(), 1);
}

#[test]
fn test_recent_project_is_badged_and_starts_unchecked() {
    let mut w = World::new();
    old_project(&mut w, "freshsite", "package.json", "node_modules");
    w.age(&home("dev/freshsite"), 0);
    let groups = artifacts(&w, "");
    let g = group(&groups, "purge.node_modules");
    assert_eq!(g.candidates.len(), 1);
    assert!(g.candidates[0].label.ends_with("(recent)"));
    assert!(!g.candidates[0].selectable, "recent artifacts start unchecked");
}

#[test]
fn test_old_project_has_no_badge_and_is_precheck() {
    let mut w = World::new();
    old_project(&mut w, "oldsite", "package.json", "node_modules");
    let groups = artifacts(&w, "");
    let g = group(&groups, "purge.node_modules");
    assert_eq!(g.candidates.len(), 1);
    assert!(!g.candidates[0].label.contains("(recent)"));
    assert!(g.candidates[0].selectable, "old artifacts start pre-checked");
}

#[test]
fn test_byte_count_reflects_directory_size() {
    let mut w = World::new();
    old_project(&mut w, "site", "package.json", "node_modules");
    w.entry(&home("dev/site/node_modules")).size = 8192;
    assert_eq!(group(&artifacts(&w, ""), "purge.node_modules").candidates[0].bytes, 8192);
}

#[test]
fn test_missing_root_yields_empty_groups_without_error() {
    let groups = artifacts(&World::new(), "");
    assert_eq!(groups.len(), 9);
    assert!(groups.iter().all(|g| g.candidates.is_empty()));
}

#[test]
fn test_too_shallow_candidate_is_recorded_as_skipped_not_silently_dropped() {
    let mut c = ctx();
    c.config.purge.roots = s(&["~"]);
    let mut w = World::new();
    w.file(&home("package.json"), 1);
    w.dir(&home("node_modules"));
    let wl = parse("", HOME).unwrap();
    let groups = purge::scan(&c, &c.config, &wl, &env(), &w.host);
    let g = group(&groups, "purge.node_modules");
    assert!(g.candidates.is_empty());
    assert_eq!(g.skipped.len(), 1);
}

#[test]
fn test_whitelisted_artifact_is_greyed_out_and_unselectable() {
    let mut w = World::new();
    old_project(&mut w, "site", "package.json", "node_modules");
    let groups = artifacts(&w, "~/dev/site/node_modules");
    let g = group(&groups, "purge.node_modules");
    assert_eq!(g.candidates.len(), 1);
    assert!(g.candidates[0].whitelisted);
    assert!(!g.candidates[0].selectable);
}

use badger::commands::shared::summarize_run;
use badger::config::Config;
use badger::ctx::Ctx;
use badger::exec::{execute_selected, DryRunEffector};
use badger::host::{process_running, Entry, Host, Kind};
use badger::item::{Candidate, Group, Risk};
use badger::rules::{
    command, dev, expand_path_spec, leftovers, moderate, optimize, registry, snap, snapshots,
    user, CmdSpec, Rule,
};
use badger::rules::command::{
    journald_cmd, pacman_cache_cmd, pacman_orphans_cmd, pacman_orphans_detector,
};
use badger::rules::moderate::{
    container_tool, containers_prune_cmd, containers_prune_detector, flatpak_unused_cmd,
};
use badger::rules::optimize::{
    desktop_db_cmd, font_cache_cmd, fstrim_cmd, mirror_tool, mirrors_cmd, pacman_files_cmd,
    reset_failed_cmd, updatedb_cmd,
};
use badger::rules::snap::{old_revisions_cmd, old_revisions_detector};
use badger::rules::snapshots::{
    cleanup_cmd, cleanup_detector, is_valid_config_name, manual_cmd, manual_detector,
    manual_label, parse_manual_label, ParsedKind, ParsedLabel,
};
use badger::rules::user::{cache_apps_detector, trash_detector};
use badger::runner::{CmdOutput, FakeRunner};
use badger::safety::journal::MemoryLog;
use badger::safety::protected::SafetyEnv;
use badger::safety::whitelist::parse;
use badger::snapper::{SnapType, Snapshot};
use badger::scan::scan;

/// A machine made up for a test: every path has its parents, and a directory
/// lists what was put in it.
struct World {
    host: Host,
}

const NOW: i64 = 1_700_000_000_000_000_000;
const DAY: i64 = 86_400_000_000_000;

impl World {
    fn new() -> World {
        let mut host = Host::new();
        host.now = NOW;
        let mut world = World { host };
        world.dir(HOME);
        world
    }

    fn add(&mut self, path: &str, kind: Kind, size: u64, text: Option<&str>) {
        if self.host.find(path).is_some() {
            return;
        }
        if let Some((parent, name)) = path.rsplit_once('/') {
            let parent = if parent.is_empty() { "/" } else { parent };
            if path != "/" {
                self.add(parent, Kind::Dir, 0, None);
                for entry in self.host.entries.iter_mut() {
                    if entry.path == parent {
                        entry.names.get_or_insert_with(Vec::new).push(name.to_string());
                    }
                }
            }
        }
        let ino = self.host.entries.len() as u64 + 1;
        self.host.entries.push(Entry {
            path: path.to_string(),
            kind,
            leads_to_dir: kind == Kind::Dir,
            leads_to_file: kind == Kind::File,
            names: if kind == Kind::Dir { Some(Vec::new()) } else { None },
            size,
            modified: Some(NOW),
            text: text.map(|t| t.to_string()),
            uid: 1000,
            dev: 1,
            ino,
        });
        self.host.resolved.push((path.to_string(), path.to_string()));
    }

    fn dir(&mut self, path: &str) {
        self.add(path, Kind::Dir, 0, None);
    }

    fn file(&mut self, path: &str, size: u64) {
        self.add(path, Kind::File, size, None);
    }

    fn text(&mut self, path: &str, contents: &str) {
        self.add(path, Kind::File, contents.len() as u64, Some(contents));
    }

    fn entry(&mut self, path: &str) -> &mut Entry {
        self.host.entries.iter_mut().find(|e| e.path == path).unwrap()
    }

    fn sized_dir(&mut self, path: &str, size: u64) {
        self.add(path, Kind::Dir, size, None);
        self.entry(path).size = size;
    }

    fn age(&mut self, path: &str, days: i64) {
        self.entry(path).modified = Some(NOW - days * DAY);
    }
}

const ROOT: &str = "/sandbox/root";
const HOME: &str = "/sandbox/root/home/user";

fn s(list: &[&str]) -> Vec<String> {
    list.iter().map(|x| x.to_string()).collect()
}

fn home(rel: &str) -> String {
    format!("{HOME}/{rel}")
}

fn ctx() -> Ctx {
    Ctx {
        root: ROOT.to_string(),
        home: HOME.to_string(),
        config_dir: "/sandbox/config".to_string(),
        state_dir: "/sandbox/state".to_string(),
        dry_run: false,
        debug: false,
        config: Config::default(),
        sandboxed: true,
        available_commands: None,
        fake_command_output: None,
    }
}

fn env() -> SafetyEnv {
    SafetyEnv {
        root: ROOT.to_string(),
        home: HOME.to_string(),
        mount_points: Vec::new(),
        euid: 1000,
    }
}

fn output(stdout: &str) -> CmdOutput {
    CmdOutput { success: true, stdout: stdout.to_string(), stderr: String::new() }
}

fn found(rules: Vec<Rule>, ctx: &Ctx, world: &World, runner: FakeRunner) -> Vec<Group> {
    let whitelist = parse("", HOME).unwrap();
    let mut runner = runner;
    scan(&rules, ctx, &ctx.config, &whitelist, &env(), &world.host, &mut runner)
}

fn with_commands(names: &[&str]) -> Ctx {
    let mut c = ctx();
    c.available_commands = Some(s(names));
    c
}

fn spec(argv: &[&str], sudo: bool, label: &str) -> CmdSpec {
    CmdSpec { argv: s(argv), sudo, label: label.to_string() }
}

fn group<'a>(groups: &'a [Group], id: &str) -> Option<&'a Group> {
    groups.iter().find(|g| g.rule_id == id)
}

fn labels(list: &[Candidate]) -> Vec<&str> {
    list.iter().map(|c| c.label.as_str()).collect()
}

fn picked(list: &[&str], risk: Risk) -> Vec<Candidate> {
    list.iter().map(|l| Candidate::new(None, l.to_string(), 0, risk)).collect()
}

// ---------------------------------------------------------------- commands

#[test]
fn test_pacman_cache_cmd_uses_configured_keep_count_and_sudo() {
    let mut config = Config::default();
    config.clean.paccache_keep = 5;
    assert_eq!(
        pacman_cache_cmd(&config),
        vec![
            spec(&["paccache", "-rk5"], true, "Remove old cached package versions"),
            spec(&["paccache", "-ruk0"], true, "Remove cache for uninstalled packages"),
        ]
    );
}

#[test]
fn test_journald_cmd_uses_configured_max_size_and_sudo() {
    let mut config = Config::default();
    config.clean.journal_max_size = "150M".to_string();
    assert_eq!(
        journald_cmd(&config),
        vec![spec(&["journalctl", "--vacuum-size=150M"], true, "Vacuum systemd journal")]
    );
}

#[test]
fn test_pacman_orphans_group_requires_pacman_command() {
    let groups = found(command::rules(), &ctx(), &World::new(), FakeRunner::new());
    assert!(group(&groups, "pacman.orphans").is_none());
}

#[test]
fn test_pacman_orphans_cmd_builds_remove_argv_from_selected_candidates_only() {
    let selected = picked(&["bar-lib", "mystery-pkg (size unknown)"], Risk::Moderate);
    assert_eq!(
        pacman_orphans_cmd(&selected),
        vec![spec(
            &["pacman", "-Rns", "--noconfirm", "bar-lib", "mystery-pkg"],
            true,
            "Remove selected orphan packages"
        )]
    );
}

#[test]
fn test_pacman_cache_group_absent_without_paccache_and_present_with_it() {
    let mut w = World::new();
    let groups = found(command::rules(), &ctx(), &w, FakeRunner::new());
    assert!(group(&groups, "pacman.cache").is_none());

    w.file(&format!("{ROOT}/var/cache/pacman/pkg/foo.pkg.tar.zst"), 4096);
    w.entry(&format!("{ROOT}/var/cache/pacman/pkg")).size = 4096;
    let groups = found(command::rules(), &with_commands(&["paccache"]), &w, FakeRunner::new());
    let g = group(&groups, "pacman.cache").unwrap();
    assert_eq!(g.candidates.len(), 1);
    assert_eq!(g.candidates[0].bytes, 4096);
    assert!(g.requires_sudo);
}

#[test]
fn test_pacman_sync_partial_only_matches_dot_part_files() {
    let mut w = World::new();
    w.file(&format!("{ROOT}/var/cache/pacman/pkg/a.pkg.tar.zst.part"), 1);
    w.file(&format!("{ROOT}/var/cache/pacman/pkg/keep.pkg.tar.zst"), 1);
    let groups = found(command::rules(), &ctx(), &w, FakeRunner::new());
    let g = group(&groups, "pacman.sync_partial").unwrap();
    assert_eq!(labels(&g.candidates), vec!["/var/cache/pacman/pkg/a.pkg.tar.zst.part"]);
}

#[test]
fn test_aur_paru_group_requires_paru_command() {
    let mut w = World::new();
    w.dir(&home(".cache/paru"));
    let groups = found(command::rules(), &ctx(), &w, FakeRunner::new());
    assert!(group(&groups, "aur.paru").is_none());
    let groups = found(command::rules(), &with_commands(&["paru"]), &w, FakeRunner::new());
    assert_eq!(group(&groups, "aur.paru").unwrap().candidates.len(), 1);
}

#[test]
fn test_pacman_orphans_detector_returns_empty_when_no_orphans() {
    let mut runner = FakeRunner::new().with(s(&["pacman", "-Qtdq"]), output(""));
    assert!(pacman_orphans_detector(&mut runner).is_empty());
}

#[test]
fn test_pacman_orphans_detector_parses_installed_size_per_package() {
    let qi_output = "Name            : foo-lib\n\
                      Installed Size  : 1024.00 KiB\n\
                      \n\
                      Name            : bar-lib\n\
                      Installed Size  : 2.00 MiB\n";
    let mut runner = FakeRunner::new()
        .with(s(&["pacman", "-Qtdq"]), output("foo-lib\nbar-lib\n"))
        .with(s(&["pacman", "-Qi", "foo-lib", "bar-lib"]), output(qi_output));
    let candidates = pacman_orphans_detector(&mut runner);
    assert_eq!(labels(&candidates), vec!["foo-lib", "bar-lib"]);
    assert_eq!(candidates[0].bytes, 1024 * 1024);
    assert_eq!(candidates[1].bytes, 2 * 1024 * 1024);
    assert!(candidates.iter().all(|c| !c.selectable), "Moderate starts unchecked");
}

#[test]
fn test_pacman_orphans_detector_notes_size_unknown_when_qi_has_no_entry() {
    let mut runner = FakeRunner::new()
        .with(s(&["pacman", "-Qtdq"]), output("mystery-pkg\n"))
        .with(s(&["pacman", "-Qi", "mystery-pkg"]), output(""));
    let candidates = pacman_orphans_detector(&mut runner);
    assert_eq!(labels(&candidates), vec!["mystery-pkg (size unknown)"]);
    assert_eq!(candidates[0].bytes, 0);
}

// --------------------------------------------------------------------- dev

#[test]
fn test_all_dev_rules_are_absent_when_their_dirs_dont_exist() {
    let groups = found(dev::rules(), &ctx(), &World::new(), FakeRunner::new());
    for group in &groups {
        assert!(
            group.candidates.is_empty(),
            "{} unexpectedly found a candidate",
            group.rule_id
        );
    }
}

#[test]
fn test_cargo_registry_rule_only_covers_the_cache_subdir() {
    let mut w = World::new();
    w.file(&home(".cargo/registry/cache/crate.crate"), 1);
    w.file(&home(".cargo/registry/git/keep.pack"), 1);
    let groups = found(dev::rules(), &ctx(), &w, FakeRunner::new());
    let g = group(&groups, "dev.cargo_registry").unwrap();
    assert_eq!(labels(&g.candidates), vec!["~/.cargo/registry/cache"]);
}

#[test]
fn test_npm_and_pnpm_and_go_caches_are_found_when_present() {
    let mut w = World::new();
    w.dir(&home(".npm/_cacache"));
    w.dir(&home(".local/share/pnpm/store"));
    w.dir(&home(".cache/go-build"));
    let groups = found(dev::rules(), &ctx(), &w, FakeRunner::new());
    for id in ["dev.npm", "dev.pnpm", "dev.go"] {
        let g = group(&groups, id).unwrap();
        assert_eq!(g.candidates.len(), 1, "{id} should have found its dir");
    }
}

// --------------------------------------------------------------- leftovers

#[test]
fn test_registry_true_includes_leftovers_rule() {
    assert!(registry(true).iter().any(|r| r.id == "leftovers.orphan_configs"));
    assert!(!registry(false).iter().any(|r| r.id == "leftovers.orphan_configs"));
}

#[test]
fn test_orphan_rule_absent_without_pacman_command() {
    let groups = found(registry(true), &ctx(), &World::new(), FakeRunner::new());
    assert!(group(&groups, "leftovers.orphan_configs").is_none());
}

/// The fake answer to `pacman -Qq`.
fn installed(names: &[&str]) -> FakeRunner {
    let text = format!("{}\n", names.join("\n"));
    FakeRunner::new().with(s(&["pacman", "-Qq"]), output(&text))
}

fn guessed(ctx: &Ctx, world: &World, runner: FakeRunner) -> Vec<String> {
    let mut runner = runner;
    let list = leftovers::orphan_configs_detector(ctx, &ctx.config, &world.host, &mut runner);
    list.iter().map(|c| c.label.clone()).collect()
}

/// `~/<subtree>/<name>`, touched `days` days ago.
fn aged_dir(world: &mut World, subtree: &str, name: &str, days: i64) {
    let path = home(&format!("{subtree}/{name}"));
    world.dir(&path);
    world.age(&path, days);
}

fn old_config(name: &str) -> World {
    let mut w = World::new();
    aged_dir(&mut w, ".config", name, 200);
    w
}

#[test]
fn test_unmatched_old_dir_is_a_candidate_labeled_with_experimental_guess_suffix() {
    let got = guessed(&ctx(), &old_config("oldapp"), installed(&["unrelated-pkg"]));
    assert_eq!(got, vec!["~/.config/oldapp (experimental guess)"]);
}

#[test]
fn test_exact_installed_package_name_excludes_the_dir() {
    assert!(guessed(&ctx(), &old_config("oldapp"), installed(&["oldapp"])).is_empty());
}

#[test]
fn test_substring_match_both_ways_excludes_the_dir() {
    assert!(guessed(&ctx(), &old_config("oldapp"), installed(&["oldapp-extras"])).is_empty());
}

#[test]
fn test_short_package_name_does_not_own_a_dir_via_substring() {
    let got = guessed(&ctx(), &old_config("abc"), installed(&["bc"]));
    assert_eq!(got, vec!["~/.config/abc (experimental guess)"]);
}

#[test]
fn test_flatpak_last_segment_match_excludes_the_dir() {
    let argv = s(&["flatpak", "list", "--app", "--columns=application,name,version"]);
    let runner = installed(&["unrelated-pkg"])
        .with(argv, output("org.foo.OldApp\tOld App\t1.0\n"));
    assert!(guessed(&with_commands(&["flatpak"]), &old_config("oldapp"), runner).is_empty());
}

#[test]
fn test_pacman_erroring_yields_zero_candidates_fail_closed() {
    assert!(guessed(&ctx(), &old_config("oldapp"), FakeRunner::new()).is_empty());
}

#[test]
fn test_pacman_success_with_empty_stdout_yields_zero_candidates_fail_closed() {
    let runner = FakeRunner::new().with(s(&["pacman", "-Qq"]), output(""));
    assert!(guessed(&ctx(), &old_config("oldapp"), runner).is_empty());
}

#[test]
fn test_desktop_exec_reference_under_home_applications_excludes_the_dir() {
    let mut w = old_config("oldapp");
    w.text(&home(".local/share/applications/oldapp.desktop"), "Exec=/opt/oldapp/run\n");
    assert!(guessed(&ctx(), &w, installed(&["unrelated-pkg"])).is_empty());
}

#[test]
fn test_desktop_reference_under_root_usr_share_applications_excludes_the_dir() {
    let mut w = old_config("oldapp");
    w.text(&format!("{ROOT}/usr/share/applications/oldapp.desktop"), "Name=OldApp\n");
    assert!(guessed(&ctx(), &w, installed(&["unrelated-pkg"])).is_empty());
}

#[test]
fn test_unrelated_desktop_file_does_not_exclude_the_dir() {
    let mut w = old_config("oldapp");
    w.text(&home(".local/share/applications/other.desktop"), "Exec=/opt/other/run\n");
    let got = guessed(&ctx(), &w, installed(&["unrelated-pkg"]));
    assert_eq!(got, vec!["~/.config/oldapp (experimental guess)"]);
}

#[test]
fn test_name_shorter_than_three_chars_is_never_a_candidate() {
    assert!(guessed(&ctx(), &old_config("ab"), installed(&["unrelated-pkg"])).is_empty());
}

#[test]
fn test_keep_list_and_hidden_dirs_are_never_candidates() {
    let mut w = World::new();
    for name in ["gtk-4.0", "kdeconnect", "plasmashell", ".hidden", "Trash"] {
        aged_dir(&mut w, ".local/share", name, 200);
    }
    aged_dir(&mut w, ".config", "oldapp", 200);
    let got = guessed(&ctx(), &w, installed(&["unrelated-pkg"]));
    assert_eq!(got, vec!["~/.config/oldapp (experimental guess)"]);
}

#[test]
fn test_fresh_dir_is_not_a_candidate() {
    let mut w = World::new();
    w.dir(&home(".config/oldapp"));
    assert!(guessed(&ctx(), &w, installed(&["unrelated-pkg"])).is_empty());
}

#[test]
fn test_config_orphan_min_age_days_override_is_respected() {
    let mut w = World::new();
    aged_dir(&mut w, ".config", "oldapp", 20);
    let mut c = ctx();
    assert!(guessed(&c, &w, installed(&["unrelated-pkg"])).is_empty());
    c.config.clean.orphan_min_age_days = 10;
    let got = guessed(&c, &w, installed(&["unrelated-pkg"]));
    assert_eq!(got, vec!["~/.config/oldapp (experimental guess)"]);
}

#[test]
fn test_is_process_using_path_detects_a_real_process_cwd() {
    let mut c = ctx();
    c.sandboxed = false;
    let mut host = Host::new();
    host.in_use = Some(s(&["/tmp/used", "/usr/bin/sleep"]));
    assert!(leftovers::process_using_path("/tmp/used", &c, &host));
    assert!(!leftovers::process_using_path("/tmp/unrelated", &c, &host));
    c.sandboxed = true;
    assert!(!leftovers::process_using_path("/tmp/used", &c, &host));
}

#[test]
fn test_is_process_using_path_read_dir_error_fails_closed_as_in_use() {
    let mut c = ctx();
    c.sandboxed = false;
    let mut host = Host::new();
    host.in_use = None;
    assert!(leftovers::process_using_path(&home("somedir"), &c, &host));
}

#[test]
fn test_file_nested_dir_and_symlink_are_never_candidates() {
    let mut w = World::new();
    w.file(&home(".config/stray.conf"), 1);
    aged_dir(&mut w, ".config", "keep/nested-oldapp", 200);
    aged_dir(&mut w, ".config", "reallyold", 200);
    w.add(&home(".config/linked"), Kind::Link, 0, None);
    w.entry(&home(".config/linked")).leads_to_dir = true;
    w.age(&home(".config/linked"), 200);
    let got = guessed(&ctx(), &w, installed(&["unrelated-pkg"]));
    assert!(got.iter().any(|l| l.contains("reallyold")));
    assert!(!got.iter().any(|l| l.contains("linked")));
    assert!(!got.iter().any(|l| l.contains("nested-oldapp")));
    assert!(!got.iter().any(|l| l.contains("stray")));
}

#[test]
fn test_full_scan_orphan_is_risky_unselectable_and_whitelisted_one_is_greyed() {
    let mut w = World::new();
    aged_dir(&mut w, ".config", "oldapp", 200);
    aged_dir(&mut w, ".config", "oldapp2", 200);
    let c = with_commands(&["pacman"]);
    let wl = parse("~/.config/oldapp2", HOME).unwrap();
    let mut runner = installed(&["unrelated-pkg"]);
    let groups =
        scan(&registry(true), &c, &c.config, &wl, &env(), &w.host, &mut runner);
    let g = group(&groups, "leftovers.orphan_configs").unwrap();
    let starting = |p: &str| g.candidates.iter().find(|c| c.label.starts_with(p)).unwrap();
    let orphan = starting("~/.config/oldapp ");
    assert!(!orphan.selectable, "Risky defaults to unselectable");
    assert!(orphan.label.ends_with("(experimental guess)"));
    let whitelisted = starting("~/.config/oldapp2");
    assert!(whitelisted.whitelisted);
    assert!(!whitelisted.selectable);
}

// ---------------------------------------------------------------- registry

fn plain_ctx() -> Ctx {
    let mut c = ctx();
    c.root = "/root".to_string();
    c.home = "/root/home/user".to_string();
    c
}

#[test]
fn test_expand_home_relative_spec() {
    assert_eq!(
        expand_path_spec("~/.cache/thumbnails", &plain_ctx()),
        "/root/home/user/.cache/thumbnails"
    );
}

#[test]
fn test_expand_bare_tilde() {
    assert_eq!(expand_path_spec("~", &plain_ctx()), "/root/home/user");
}

#[test]
fn test_expand_root_relative_spec() {
    assert_eq!(
        expand_path_spec("/var/cache/pacman/pkg", &plain_ctx()),
        "/root/var/cache/pacman/pkg"
    );
}

#[test]
fn test_process_running_is_false_when_sandboxed_even_if_really_running() {
    let c = plain_ctx();
    assert!(c.sandboxed);
    let mut host = Host::new();
    host.processes = s(&["sleep"]);
    assert!(!process_running("sleep", &c, &host));
}

#[test]
fn test_process_running_detects_a_real_running_process() {
    let mut c = plain_ctx();
    c.sandboxed = false;
    let mut host = Host::new();
    host.processes = s(&["sleep"]);
    assert!(process_running("sleep", &c, &host));
    assert!(!process_running("no-such-process-xyz", &c, &host));
}

#[test]
fn test_registry_ids_are_unique() {
    for experimental in [false, true] {
        let rules = registry(experimental);
        assert!(!rules.is_empty());
        let mut ids: Vec<&str> = rules.iter().map(|r| r.id).collect();
        ids.sort_unstable();
        let mut deduped = ids.clone();
        deduped.dedup();
        assert_eq!(ids, deduped, "duplicate rule id in registry()");
    }
}

// ---------------------------------------------------------------- moderate

#[test]
fn test_flatpak_unused_group_requires_flatpak_command() {
    let groups = found(moderate::rules(), &ctx(), &World::new(), FakeRunner::new());
    assert!(group(&groups, "flatpak.unused").is_none());
}

#[test]
fn test_flatpak_unused_present_with_one_informational_candidate() {
    let groups =
        found(moderate::rules(), &with_commands(&["flatpak"]), &World::new(), FakeRunner::new());
    let g = group(&groups, "flatpak.unused").unwrap();
    assert_eq!(g.candidates.len(), 1);
    assert!(!g.requires_sudo);
    assert!(!g.candidates[0].selectable, "Moderate starts unchecked");
}

#[test]
fn test_flatpak_unused_cmd_is_noninteractive_and_not_sudo() {
    assert_eq!(
        flatpak_unused_cmd(),
        vec![spec(
            &["flatpak", "uninstall", "--unused", "--noninteractive"],
            false,
            "Remove unused flatpak runtimes"
        )]
    );
}

#[test]
fn test_flatpak_app_caches_empty_when_var_app_missing() {
    let groups = found(moderate::rules(), &ctx(), &World::new(), FakeRunner::new());
    assert!(group(&groups, "flatpak.app_caches").unwrap().candidates.is_empty());
}

#[test]
fn test_flatpak_app_caches_finds_cache_dir_per_app_and_skips_apps_without_one() {
    let mut w = World::new();
    w.sized_dir(&home(".var/app/org.foo.App/cache"), 4096);
    w.dir(&home(".var/app/org.bar.App/data"));
    let groups = found(moderate::rules(), &ctx(), &w, FakeRunner::new());
    let g = group(&groups, "flatpak.app_caches").unwrap();
    assert_eq!(labels(&g.candidates), vec!["~/.var/app/org.foo.App/cache"]);
    assert_eq!(g.candidates[0].bytes, 4096);
}

#[test]
fn test_containers_prune_group_requires_podman_or_docker() {
    let groups = found(moderate::rules(), &ctx(), &World::new(), FakeRunner::new());
    assert!(group(&groups, "containers.prune").is_none());
}

#[test]
fn test_containers_prune_prefers_podman_when_both_present() {
    let host = Host::new();
    assert_eq!(container_tool(&with_commands(&["podman", "docker"]), &host), "podman");
}

#[test]
fn test_containers_prune_falls_back_to_docker_when_podman_absent() {
    assert_eq!(container_tool(&with_commands(&["docker"]), &Host::new()), "docker");
}

#[test]
fn test_containers_prune_detector_lists_dangling_images_and_exited_containers() {
    let mut runner = FakeRunner::new()
        .with(
            s(&[
                "podman",
                "images",
                "-f",
                "dangling=true",
                "--format",
                "{{.ID}} {{.Repository}} {{.Size}}",
            ]),
            output("abc123 <none> 128MB\n"),
        )
        .with(
            s(&[
                "podman",
                "ps",
                "-a",
                "--filter",
                "status=exited",
                "--format",
                "{{.ID}} {{.Names}}",
            ]),
            output("def456 old-build\n"),
        );
    let candidates =
        containers_prune_detector(&with_commands(&["podman"]), &Host::new(), &mut runner);
    assert_eq!(labels(&candidates), vec!["image <none> (abc123)", "container old-build (def456)"]);
    assert_eq!(candidates[0].bytes, 128 * 1024 * 1024);
    assert_eq!(candidates[1].bytes, 0);
}

#[test]
fn test_containers_prune_cmd_builds_separate_rmi_and_rm_for_selected_candidates() {
    let selected =
        picked(&["image <none> (abc123)", "container old-build (def456)"], Risk::Moderate);
    let specs = containers_prune_cmd(&with_commands(&["podman"]), &Host::new(), &selected);
    assert_eq!(
        specs,
        vec![
            spec(&["podman", "rmi", "abc123"], false, "Remove selected dangling images"),
            spec(&["podman", "rm", "def456"], false, "Remove selected stopped containers"),
        ]
    );
}

#[test]
fn test_containers_prune_cmd_omits_rm_spec_when_only_images_selected() {
    let selected = picked(&["image <none> (abc123)"], Risk::Moderate);
    let specs = containers_prune_cmd(&with_commands(&["podman"]), &Host::new(), &selected);
    assert_eq!(specs.len(), 1);
    assert_eq!(specs[0].label, "Remove selected dangling images");
}

#[test]
fn test_system_coredumps_matches_files_under_the_coredump_dir() {
    let mut w = World::new();
    w.file(&format!("{ROOT}/var/lib/systemd/coredump/core.foo.1000.1"), 4096);
    let groups = found(moderate::rules(), &ctx(), &w, FakeRunner::new());
    let g = group(&groups, "system.coredumps").unwrap();
    assert_eq!(g.candidates.len(), 1);
    assert!(g.requires_sudo);
    assert!(!g.candidates[0].selectable);
}

#[test]
fn test_snap_cache_group_requires_snap_command() {
    let groups = found(moderate::rules(), &ctx(), &World::new(), FakeRunner::new());
    assert!(group(&groups, "snap.cache").is_none());
}

#[test]
fn test_snap_cache_matches_files_under_the_cache_dir_when_snap_present() {
    let mut w = World::new();
    w.file(&format!("{ROOT}/var/lib/snapd/cache/abcd1234"), 4096);
    let groups = found(moderate::rules(), &with_commands(&["snap"]), &w, FakeRunner::new());
    let g = group(&groups, "snap.cache").unwrap();
    assert_eq!(g.candidates.len(), 1);
    assert!(g.requires_sudo);
}

// ---------------------------------------------------------------- optimize

fn tasks(commands: &[&str]) -> Vec<Group> {
    found(optimize::rules(), &with_commands(commands), &World::new(), FakeRunner::new())
}

#[test]
fn test_registry_ids_are_unique_and_do_not_collide_with_the_clean_registry() {
    let rules = optimize::rules();
    let mut ids: Vec<&str> = rules.iter().map(|r| r.id).collect();
    ids.sort_unstable();
    let mut deduped = ids.clone();
    deduped.dedup();
    assert_eq!(ids, deduped);
    assert!(ids.iter().all(|id| id.starts_with("optimize.")));
}

#[test]
fn test_fstrim_is_always_present_and_prechecked() {
    let groups = tasks(&[]);
    let g = group(&groups, "optimize.fstrim").unwrap();
    assert!(g.requires_sudo);
    assert!(g.candidates[0].selectable, "Safe tasks start checked");
}

#[test]
fn test_fstrim_cmd_is_sudo_fstrim_av() {
    assert_eq!(fstrim_cmd(), vec![spec(&["fstrim", "-av"], true, "Trim SSD free space")]);
}

#[test]
fn test_reset_failed_is_always_present_and_prechecked() {
    let groups = tasks(&[]);
    assert!(group(&groups, "optimize.reset_failed").unwrap().candidates[0].selectable);
}

#[test]
fn test_reset_failed_cmd_sudos_the_system_scope_only() {
    assert_eq!(
        reset_failed_cmd(),
        vec![
            spec(&["systemctl", "reset-failed"], true, "Reset failed system units"),
            spec(&["systemctl", "--user", "reset-failed"], false, "Reset failed user units"),
        ]
    );
}

#[test]
fn test_font_cache_group_requires_fc_cache_command() {
    assert!(group(&tasks(&[]), "optimize.font_cache").is_none());
    let groups = tasks(&["fc-cache"]);
    let g = group(&groups, "optimize.font_cache").unwrap();
    assert!(!g.requires_sudo);
    assert!(g.candidates[0].selectable);
}

#[test]
fn test_font_cache_cmd_is_not_sudo() {
    assert_eq!(font_cache_cmd(), vec![spec(&["fc-cache", "-f"], false, "Rebuild font cache")]);
}

#[test]
fn test_desktop_db_group_requires_at_least_one_of_the_three_commands() {
    assert!(group(&tasks(&[]), "optimize.desktop_db").is_none());
}

#[test]
fn test_desktop_db_cmd_only_includes_update_desktop_database_when_that_alone_exists() {
    let c = with_commands(&["update-desktop-database"]);
    assert_eq!(
        desktop_db_cmd(&c, &Host::new()),
        vec![spec(
            &["update-desktop-database", &home(".local/share/applications")],
            false,
            "Refresh desktop entry database"
        )]
    );
}

#[test]
fn test_desktop_db_cmd_skips_icon_and_mime_caches_when_their_dirs_are_missing() {
    let c = with_commands(&["gtk-update-icon-cache", "update-mime-database"]);
    assert!(desktop_db_cmd(&c, &Host::new()).is_empty(), "neither target dir exists in this ctx");
}

#[test]
fn test_desktop_db_cmd_includes_icon_and_mime_caches_when_their_dirs_exist() {
    let mut w = World::new();
    w.dir(&home(".local/share/icons/hicolor"));
    w.dir(&home(".local/share/mime"));
    let c = with_commands(&["gtk-update-icon-cache", "update-mime-database"]);
    let specs = desktop_db_cmd(&c, &w.host);
    assert_eq!(specs.len(), 2);
    assert_eq!(specs[0].label, "Refresh hicolor icon cache");
    assert_eq!(specs[1].label, "Refresh MIME database");
}

#[test]
fn test_pacman_files_group_requires_pacman_command_and_starts_unchecked() {
    assert!(group(&tasks(&[]), "optimize.pacman_files").is_none());
    let groups = tasks(&["pacman"]);
    let g = group(&groups, "optimize.pacman_files").unwrap();
    assert!(!g.candidates[0].selectable, "opt-in task must start unchecked");
}

#[test]
fn test_pacman_files_cmd_is_sudo_pacman_fy() {
    assert_eq!(
        pacman_files_cmd(),
        vec![spec(&["pacman", "-Fy"], true, "Refresh pacman file database")]
    );
}

#[test]
fn test_updatedb_group_requires_updatedb_command_and_is_prechecked() {
    assert!(group(&tasks(&[]), "optimize.updatedb").is_none());
    let groups = tasks(&["updatedb"]);
    assert!(group(&groups, "optimize.updatedb").unwrap().candidates[0].selectable);
    assert_eq!(updatedb_cmd()[0].argv, s(&["updatedb"]));
}

#[test]
fn test_mirrors_absent_when_no_mirror_tool_is_installed() {
    assert!(group(&tasks(&[]), "optimize.mirrors").is_none());
}

#[test]
fn test_mirrors_absent_when_config_sets_mirror_tool_off() {
    let mut c = with_commands(&["reflector"]);
    c.config.optimize.mirror_tool = "off".to_string();
    let groups = found(optimize::rules(), &c, &World::new(), FakeRunner::new());
    assert!(group(&groups, "optimize.mirrors").is_none());
}

#[test]
fn test_mirrors_prefers_cachyos_rate_mirrors_over_the_others_when_auto() {
    let c = with_commands(&["cachyos-rate-mirrors", "rate-mirrors", "reflector"]);
    assert_eq!(mirror_tool(&c, &Host::new()), Some("cachyos-rate-mirrors"));
}

#[test]
fn test_mirrors_falls_back_to_rate_mirrors_then_reflector() {
    let c = with_commands(&["rate-mirrors", "reflector"]);
    assert_eq!(mirror_tool(&c, &Host::new()), Some("rate-mirrors"));
    assert_eq!(mirror_tool(&with_commands(&["reflector"]), &Host::new()), Some("reflector"));
}

#[test]
fn test_mirrors_config_override_pins_a_specific_tool() {
    let mut c = with_commands(&["cachyos-rate-mirrors", "reflector"]);
    c.config.optimize.mirror_tool = "reflector".to_string();
    assert_eq!(mirror_tool(&c, &Host::new()), Some("reflector"));
}

#[test]
fn test_mirrors_config_override_to_an_uninstalled_tool_yields_none() {
    let mut c = with_commands(&["cachyos-rate-mirrors"]);
    c.config.optimize.mirror_tool = "reflector".to_string();
    assert_eq!(mirror_tool(&c, &Host::new()), None);
}

#[test]
fn test_mirrors_group_starts_unchecked() {
    let groups = tasks(&["reflector"]);
    assert!(!group(&groups, "optimize.mirrors").unwrap().candidates[0].selectable);
}

#[test]
fn test_mirrors_cmd_uses_reflector_argv() {
    assert_eq!(
        mirrors_cmd(&with_commands(&["reflector"]), &Host::new()),
        vec![spec(
            &[
                "reflector",
                "--latest",
                "20",
                "--protocol",
                "https",
                "--sort",
                "rate",
                "--save",
                "/etc/pacman.d/mirrorlist",
            ],
            true,
            "Refresh mirror list via reflector"
        )]
    );
}

#[test]
fn test_mirrors_cmd_runs_cachyos_rate_mirrors_bare() {
    assert_eq!(
        mirrors_cmd(&with_commands(&["cachyos-rate-mirrors"]), &Host::new()),
        vec![spec(
            &["cachyos-rate-mirrors"],
            true,
            "Refresh mirror list via cachyos-rate-mirrors"
        )]
    );
}

// -------------------------------------------------------------------- snap

const REAL_SHAPED_OUTPUT: &str = "\
Name      Version   Rev    Tracking       Publisher   Notes
firefox   129.0     4848   latest/stable  mozilla     -
firefox   128.0     4790   latest/stable  mozilla     disabled
firefox   127.0     4700   latest/stable  mozilla     disabled,classic
code      1.90      163    latest/stable  vscode      classic
";

fn snap_list(stdout: &str) -> FakeRunner {
    FakeRunner::new().with(s(&["snap", "list", "--all"]), output(stdout))
}

#[test]
fn test_old_revisions_group_absent_when_snap_command_missing() {
    let groups = found(snap::rules(), &ctx(), &World::new(), FakeRunner::new());
    assert!(group(&groups, "snap.old_revisions").is_none());
}

#[test]
fn test_old_revisions_group_present_and_does_not_collide_with_snap_cache() {
    let mut all_rules = snap::rules();
    all_rules.extend(moderate::rules());
    let groups = found(all_rules, &with_commands(&["snap"]), &World::new(), FakeRunner::new());
    let old_revisions = group(&groups, "snap.old_revisions").unwrap();
    assert_eq!(old_revisions.risk, Risk::Risky);
    assert!(old_revisions.requires_sudo);
    let cache = group(&groups, "snap.cache").unwrap();
    assert_ne!(old_revisions.rule_id, cache.rule_id);
}

#[test]
fn test_old_revisions_candidates_start_unselectable_via_scan() {
    let groups = found(
        snap::rules(),
        &with_commands(&["snap"]),
        &World::new(),
        snap_list(REAL_SHAPED_OUTPUT),
    );
    let g = group(&groups, "snap.old_revisions").unwrap();
    assert_eq!(g.candidates.len(), 2);
    assert!(g.candidates.iter().all(|c| !c.selectable));
}

#[test]
fn test_detector_matches_exact_disabled_token_not_substring_or_plain_classic() {
    let candidates = old_revisions_detector(&mut snap_list(REAL_SHAPED_OUTPUT));
    assert_eq!(labels(&candidates), vec!["firefox (revision 4790)", "firefox (revision 4700)"]);
    assert!(candidates.iter().all(|c| !c.selectable), "Risky starts unchecked");
}

#[test]
fn test_detector_empty_when_command_errors() {
    assert!(old_revisions_detector(&mut FakeRunner::new()).is_empty());
}

#[test]
fn test_detector_empty_when_output_unsuccessful() {
    let mut failed = output(REAL_SHAPED_OUTPUT);
    failed.success = false;
    let mut runner = FakeRunner::new().with(s(&["snap", "list", "--all"]), failed);
    assert!(old_revisions_detector(&mut runner).is_empty());
}

#[test]
fn test_detector_skips_short_and_garbage_rows_without_panic() {
    let text = "\
Name      Version   Rev    Tracking       Publisher   Notes
too short
firefox   128.0     4790   latest/stable  mozilla     disabled
";
    let candidates = old_revisions_detector(&mut snap_list(text));
    assert_eq!(labels(&candidates), vec!["firefox (revision 4790)"]);
}

#[test]
fn test_builder_two_selected_candidates_build_two_specs() {
    let list = picked(&["firefox (revision 4790)", "code (revision 163)"], Risk::Risky);
    let (specs, skips) = old_revisions_cmd(&list);
    assert!(skips.is_empty());
    assert_eq!(
        specs,
        vec![
            spec(
                &["snap", "remove", "firefox", "--revision", "4790"],
                true,
                "Remove firefox revision 4790"
            ),
            spec(
                &["snap", "remove", "code", "--revision", "163"],
                true,
                "Remove code revision 163"
            ),
        ]
    );
}

#[test]
fn test_builder_local_install_style_revision_builds_normally() {
    let (specs, skips) = old_revisions_cmd(&picked(&["myapp (revision x1)"], Risk::Risky));
    assert!(skips.is_empty());
    assert_eq!(
        specs,
        vec![spec(
            &["snap", "remove", "myapp", "--revision", "x1"],
            true,
            "Remove myapp revision x1"
        )]
    );
}

#[test]
fn test_builder_defense_checks_skip_unsafe_labels_but_still_build_the_valid_one() {
    let list = picked(
        &[
            "garbage label",
            "-flag (revision 123)",
            "UPPER/CASE (revision 123)",
            "name (revision -1)",
            "name (revision 1 2)",
            "firefox (revision 4790)",
        ],
        Risk::Risky,
    );
    let (specs, skips) = old_revisions_cmd(&list);
    assert_eq!(specs.len(), 1);
    assert_eq!(specs[0].argv[2], "firefox");
    assert_eq!(skips.len(), 5);
    for (label, reason) in &skips {
        assert_eq!(reason, "could not be safely interpreted — not removed");
        assert_ne!(label, "firefox (revision 4790)");
    }
}

// --------------------------------------------------------------- snapshots

fn list_configs_output(names: &[&str]) -> CmdOutput {
    let mut out = "Config | Subvolume\n-------+----------\n".to_string();
    for name in names {
        out.push_str(&format!("{name} | /\n"));
    }
    output(&out)
}

fn configs(names: &[&str]) -> FakeRunner {
    FakeRunner::new().with(s(&["snapper", "list-configs"]), list_configs_output(names))
}

fn list_of(cfg: &str) -> Vec<String> {
    s(&["snapper", "-c", cfg, "--jsonout", "list"])
}

fn limine(runner: FakeRunner, enabled: &str, active: &str) -> FakeRunner {
    runner
        .with(s(&["systemctl", "is-enabled", "limine-snapper-sync.service"]), output(enabled))
        .with(s(&["systemctl", "is-active", "limine-snapper-sync.service"]), output(active))
}

fn booted(number: u64) -> World {
    let mut w = World::new();
    w.text(
        &format!("{ROOT}/proc/cmdline"),
        &format!("subvol=@snapshots/{number}/snapshot\n"),
    );
    w
}

fn manual(world: &World, runner: FakeRunner) -> (Vec<String>, Vec<(String, String)>) {
    let mut runner = runner;
    let (candidates, skips) = manual_detector(&ctx(), &world.host, &mut runner);
    (candidates.iter().map(|c| c.label.clone()).collect(), skips)
}

#[test]
fn test_is_valid_config_name_rejects_leading_dash_and_unsafe_chars() {
    assert!(is_valid_config_name("root"));
    assert!(is_valid_config_name("my-config_1.bak"));
    assert!(!is_valid_config_name("-evil"));
    assert!(!is_valid_config_name("has space"));
    assert!(!is_valid_config_name(""));
}

#[test]
fn test_snapshots_rules_absent_when_snapper_command_missing() {
    assert!(found(snapshots::rules(), &ctx(), &World::new(), FakeRunner::new()).is_empty());
}

#[test]
fn test_snapshots_rules_absent_when_manage_is_false() {
    let mut c = with_commands(&["snapper"]);
    c.config.snapshots.manage = false;
    assert!(found(snapshots::rules(), &c, &World::new(), FakeRunner::new()).is_empty());
}

#[test]
fn test_snapshots_rules_present_when_snapper_and_manage_true() {
    let c = with_commands(&["snapper"]);
    assert!(c.config.snapshots.manage);
    let groups = found(snapshots::rules(), &c, &World::new(), FakeRunner::new());
    let cleanup = group(&groups, "snapshots.snapper_cleanup").unwrap();
    let manual = group(&groups, "snapshots.snapper_manual").unwrap();
    assert!(cleanup.requires_sudo);
    assert_eq!(cleanup.risk, Risk::Risky);
    assert!(manual.requires_sudo);
    assert_eq!(manual.risk, Risk::Risky);
}

#[test]
fn test_cleanup_detector_lists_one_candidate_per_config_with_counts() {
    let runner = configs(&["root", "home"])
        .with(list_of("root"), output(r#"{"root": [{"number":1},{"number":2},{"number":3}]}"#))
        .with(list_of("home"), output(r#"{"home": [{"number":1}]}"#));
    let (candidates, _) = cleanup_detector(&mut limine(runner, "not-found\n", ""));
    assert_eq!(
        labels(&candidates),
        vec![
            "run snapper cleanup 'number' for config root (3 snapshots)",
            "run snapper cleanup 'number' for config home (1 snapshots)",
        ]
    );
    assert!(!candidates[0].selectable);
    assert!(!candidates[1].selectable);
}

#[test]
fn test_cleanup_detector_limine_active_suffix() {
    let runner = configs(&["root"]).with(list_of("root"), output(r#"{"root": []}"#));
    let (candidates, _) = cleanup_detector(&mut limine(runner, "enabled\n", "active\n"));
    assert!(candidates[0].label.ends_with(" — limine boot entries re-sync automatically"));
}

#[test]
fn test_cleanup_detector_limine_inactive_suffix() {
    let runner = configs(&["root"]).with(list_of("root"), output(r#"{"root": []}"#));
    let (candidates, _) = cleanup_detector(&mut limine(runner, "disabled\n", "inactive\n"));
    assert!(candidates[0]
        .label
        .ends_with(" — WARNING: limine-snapper-sync inactive, run it manually afterwards"));
}

#[test]
fn test_cleanup_detector_limine_absent_no_suffix() {
    let runner = configs(&["root"]).with(list_of("root"), output(r#"{"root": []}"#));
    let (candidates, _) = cleanup_detector(&mut limine(runner, "not-found\n", ""));
    assert_eq!(
        labels(&candidates),
        vec!["run snapper cleanup 'number' for config root (0 snapshots)"]
    );
}

#[test]
fn test_cleanup_detector_skips_config_with_invalid_name_not_a_candidate() {
    let runner = configs(&["root", "-evil"]).with(list_of("root"), output(r#"{"root": []}"#));
    let (candidates, skips) = cleanup_detector(&mut limine(runner, "not-found\n", ""));
    assert_eq!(candidates.len(), 1);
    assert!(candidates[0].label.contains("config root"));
    assert_eq!(skips.len(), 1);
    assert!(skips[0].0.contains("-evil"));
}

#[test]
fn test_cleanup_cmd_builds_one_spec_per_selected_config() {
    let both = picked(
        &[
            "run snapper cleanup 'number' for config root (3 snapshots)",
            "run snapper cleanup 'number' for config home (1 snapshots)",
        ],
        Risk::Risky,
    );
    let root_only = vec![both[0].clone()];
    assert_eq!(
        cleanup_cmd(&root_only),
        vec![spec(
            &["snapper", "-c", "root", "cleanup", "number"],
            true,
            "Run snapper cleanup 'number' for root"
        )]
    );
    assert_eq!(cleanup_cmd(&both).len(), 2);
}

#[test]
fn test_cleanup_cmd_unparseable_label_yields_no_spec_and_does_not_panic() {
    assert!(cleanup_cmd(&picked(&["garbage label"], Risk::Risky)).is_empty());
}

#[test]
fn test_manual_detector_excludes_booted_default_and_zero() {
    let runner = configs(&["root"])
        .with(
            s(&["btrfs", "subvolume", "get-default", "/"]),
            output("path @snapshots/7/snapshot\n"),
        )
        .with(
            list_of("root"),
            output(
                r#"{"root": [{"number":0}, {"number":4}, {"number":5}, {"number":6}, {"number":7}]}"#,
            ),
        );
    let (got, skips) = manual(&booted(5), limine(runner, "not-found\n", ""));
    assert!(skips.is_empty());
    assert_eq!(got, s(&["root: #4", "root: #6"]));
}

#[test]
fn test_manual_detector_no_booted_knowledge_yields_zero_candidates_and_one_skip() {
    let (got, skips) = manual(&World::new(), FakeRunner::new());
    assert!(got.is_empty());
    assert_eq!(
        skips,
        vec![(
            "manual snapshot deletion".to_string(),
            "cannot identify the booted snapshot — not offering per-snapshot deletion (the \
             cleanup rule above still works)"
                .to_string()
        )]
    );
}

#[test]
fn test_manual_detector_no_booted_knowledge_skip_surfaces_via_full_scan() {
    let c = with_commands(&["snapper"]);
    let groups = found(snapshots::rules(), &c, &World::new(), FakeRunner::new());
    let manual = group(&groups, "snapshots.snapper_manual").unwrap();
    assert!(manual.candidates.is_empty());
    assert_eq!(manual.skipped.len(), 1);
    assert_eq!(manual.skipped[0].0, "manual snapshot deletion");
}

#[test]
fn test_manual_detector_limine_inactive_adds_skip() {
    let (_, skips) = manual(&booted(5), limine(configs(&[]), "disabled\n", "inactive\n"));
    assert_eq!(
        skips,
        vec![(
            "limine-snapper-sync".to_string(),
            "installed but inactive — run it manually after deleting snapshots so boot \
             entries stay in sync"
                .to_string()
        )]
    );
}

#[test]
fn test_manual_detector_limine_active_no_skip() {
    let (_, skips) = manual(&booted(5), limine(configs(&[]), "enabled\n", "active\n"));
    assert!(skips.is_empty());
}

#[test]
fn test_manual_detector_labels_pre_and_post_of() {
    let runner = configs(&["root"]).with(
        list_of("root"),
        output(
            r#"{"root": [{"number":10, "type":"pre"},
                {"number":11, "type":"post", "pre-number":10}]}"#,
        ),
    );
    let (got, _) = manual(&booted(999), limine(runner, "not-found\n", ""));
    assert_eq!(got, s(&["root: #10 [pre]", "root: #11 [post of #10]"]));
}

#[test]
fn test_manual_detector_skips_config_with_invalid_name_not_a_candidate() {
    let runner = configs(&["-evil", "root"])
        .with(list_of("root"), output(r#"{"root": [{"number":4}]}"#));
    let (got, skips) = manual(&booted(999), limine(runner, "not-found\n", ""));
    assert_eq!(got, s(&["root: #4"]));
    assert!(skips.iter().any(|s| s.0.contains("-evil")));
}

#[test]
fn test_manual_cmd_complete_pair_and_single_build_one_spec_no_skips() {
    let list = picked(&["root: #10 [pre]", "root: #11 [post of #10]", "root: #4"], Risk::Risky);
    let (specs, skips) = manual_cmd(&list);
    assert!(skips.is_empty());
    assert_eq!(
        specs,
        vec![spec(
            &["snapper", "-c", "root", "delete", "4", "10", "11"],
            true,
            "Delete 3 snapshot(s) from config root"
        )]
    );
}

#[test]
fn test_manual_cmd_lone_pre_refused() {
    let (specs, skips) = manual_cmd(&picked(&["root: #10 [pre]"], Risk::Risky));
    assert!(specs.is_empty());
    assert_eq!(skips.len(), 1);
    assert!(skips[0].0.contains("#10"));
    assert!(skips[0].1.contains("nothing was deleted for config root"));
}

#[test]
fn test_manual_cmd_lone_post_refused() {
    let (specs, skips) = manual_cmd(&picked(&["root: #11 [post of #10]"], Risk::Risky));
    assert!(specs.is_empty());
    assert_eq!(skips.len(), 1);
    assert!(skips[0].0.contains("#11"));
    assert!(skips[0].1.contains("nothing was deleted for config root"));
}

#[test]
fn test_manual_cmd_violation_in_one_config_does_not_block_another() {
    let (specs, skips) = manual_cmd(&picked(&["root: #10 [pre]", "home: #3"], Risk::Risky));
    assert_eq!(specs.len(), 1);
    assert_eq!(specs[0].argv[2], "home");
    assert_eq!(skips.len(), 1);
    assert!(skips[0].0.contains("root"));
}

#[test]
fn test_manual_cmd_unparseable_label_is_skipped_never_in_argv() {
    let (specs, skips) = manual_cmd(&picked(&["root: #0", "garbage"], Risk::Risky));
    assert!(specs.is_empty());
    assert_eq!(skips.len(), 2);
}

#[test]
fn test_parse_manual_label_hostile_config_name_does_not_redirect_number() {
    let parsed = parse_manual_label("root: #999: #4 [pre]").unwrap();
    assert_eq!(
        parsed,
        ParsedLabel { config: "root: #999".to_string(), number: 4, kind: ParsedKind::Pre }
    );
}

fn read_label(label: &str) -> Option<(String, u64, ParsedKind)> {
    parse_manual_label(label).map(|p| (p.config, p.number, p.kind))
}

#[test]
fn a_description_cannot_redirect_the_number() {
    assert_eq!(
        read_label("root: #4 2024-01-01 — see bug: #7"),
        Some(("root".to_string(), 4, ParsedKind::Single))
    );
    assert_eq!(
        read_label("root: #11 [post of #10] — undo: #3 [pre]"),
        Some(("root".to_string(), 11, ParsedKind::Post(Some(10))))
    );
    assert_eq!(
        read_label("home: #12 [post] — : #1"),
        Some(("home".to_string(), 12, ParsedKind::Post(None)))
    );
}

#[test]
fn a_label_without_a_clear_number_is_not_read() {
    assert_eq!(read_label("root: #4x"), None);
    assert_eq!(read_label("root: # 4"), None);
    assert_eq!(read_label("root: #99999999999999999999"), None);
    assert_eq!(read_label("root: #11 [post of #x]"), None);
    assert_eq!(read_label("a: # b: #4"), Some(("a: # b".to_string(), 4, ParsedKind::Single)));
}

#[test]
fn labels_read_back_whatever_the_description_says() {
    for description in ["", "plain", "see: #7", ": #9 [pre]", "[post of #2]"] {
        for (snap_type, pre_number, kind) in [
            (SnapType::Single, None, ParsedKind::Single),
            (SnapType::Pre, None, ParsedKind::Pre),
            (SnapType::Post, Some(3), ParsedKind::Post(Some(3))),
            (SnapType::Post, None, ParsedKind::Post(None)),
        ] {
            let snap = Snapshot {
                number: 42,
                snap_type,
                pre_number,
                date: Some("2024-01-01".to_string()),
                description: description.to_string(),
            };
            let label = manual_label("root", &snap);
            assert_eq!(read_label(&label), Some(("root".to_string(), 42, kind)), "{label}");
        }
    }
}

fn manual_group(list: &[&str]) -> Group {
    Group {
        rule_id: "snapshots.snapper_manual".to_string(),
        title: "Snapper snapshots (manual delete)".to_string(),
        risk: Risk::Risky,
        requires_sudo: true,
        candidates: picked(list, Risk::Risky),
        skipped: Vec::new(),
    }
}

#[test]
fn test_execute_selected_manual_rule_refusal_journals_and_surfaces_as_note() {
    let c = ctx();
    let mut effector = DryRunEffector::new();
    let mut log = MemoryLog::new();
    let summary = execute_selected(
        &vec![manual_group(&["root: #10 [pre]"])],
        &vec![(0usize, 0usize)],
        &snapshots::rules(),
        &c,
        &c.config,
        &Host::new(),
        &mut effector,
        &mut log,
        "run-1",
        false,
    );
    assert_eq!(summary.actions, 1);
    let (_, _, notes) = summarize_run(&log.records, "run-1");
    assert_eq!(notes.len(), 1);
    assert!(notes[0].contains("skipped:"));
}

// -------------------------------------------------------------------- user

#[test]
fn test_cache_apps_lists_generic_child_but_excludes_specific_ones() {
    let mut w = World::new();
    for name in ["some-browser", "thumbnails", "paru", "pip", "go-build"] {
        w.dir(&home(&format!(".cache/{name}")));
    }
    let candidates = cache_apps_detector(&ctx(), &w.host);
    assert_eq!(labels(&candidates), vec!["~/.cache/some-browser"]);
}

#[test]
fn test_thumbnails_rule_found_via_full_scan() {
    let mut w = World::new();
    w.file(&home(".cache/thumbnails/a.png"), 1);
    let groups = found(user::rules(), &ctx(), &w, FakeRunner::new());
    assert_eq!(group(&groups, "user.thumbnails").unwrap().candidates.len(), 1);
}

#[test]
fn test_trash_includes_old_entry_and_excludes_fresh_one() {
    let mut w = World::new();
    w.file(&home(".local/share/Trash/files/old.txt"), 1);
    w.file(&home(".local/share/Trash/files/fresh.txt"), 1);
    w.age(&home(".local/share/Trash/files/old.txt"), 40);
    let candidates = trash_detector(&ctx(), &Config::default(), &w.host);
    assert_eq!(labels(&candidates), vec!["~/.local/share/Trash/files/old.txt"]);
}

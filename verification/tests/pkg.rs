use badger::config::Config;
use badger::ctx::Ctx;
use badger::host::Host;
use badger::pkg::{flatpak, list_installed, pacman, snap, Backend};
use badger::pkg::recommend::{name_variants, normalize};
use badger::runner::{CmdOutput, FakeRunner};

fn s(list: &[&str]) -> Vec<String> {
    list.iter().map(|x| x.to_string()).collect()
}

fn ctx() -> Ctx {
    Ctx {
        root: "/sandbox/root".to_string(),
        home: "/sandbox/root/home/user".to_string(),
        config_dir: "/sandbox/config".to_string(),
        state_dir: "/sandbox/state".to_string(),
        dry_run: false,
        debug: false,
        config: Config::default(),
        sandboxed: true,
        available_commands: None,
        fake_command_output: None,
    }
}

fn cmd_output(stdout: &str) -> CmdOutput {
    CmdOutput {
        success: true,
        stdout: stdout.to_string(),
        stderr: String::new(),
    }
}

#[test]
fn test_is_available_requires_flatpak_command() {
    let mut c = ctx();
    assert!(!flatpak::is_available(&c, &Host::new()));
    c.available_commands = Some(s(&["flatpak"]));
    assert!(flatpak::is_available(&c, &Host::new()));
}

#[test]
fn test_list_parses_tab_separated_columns() {
    let mut runner = FakeRunner::new().with(
        s(&["flatpak", "list", "--app", "--columns=application,name,version"]),
        cmd_output("org.foo.App\tFoo App\t1.2.3\n"),
    );

    let packages = flatpak::list(&mut runner);
    assert_eq!(packages.len(), 1);
    assert_eq!(packages[0].id, "org.foo.App");
    assert_eq!(packages[0].name, "Foo App");
    assert_eq!(packages[0].version, "1.2.3");
    assert_eq!(packages[0].backend, Backend::Flatpak);
    assert!(!packages[0].aur);
    assert_eq!(packages[0].size_bytes, None);
}

#[test]
fn test_remove_argv_is_exact_and_never_sudo() {
    assert_eq!(
        flatpak::remove_argv("org.foo.App"),
        s(&["flatpak", "uninstall", "--delete-data", "--noninteractive", "org.foo.App"])
    );
}

#[test]
fn test_data_dir_is_var_app_id() {
    let c = ctx();
    assert_eq!(
        flatpak::data_dir(&c, "org.foo.App"),
        format!("{}/.var/app/org.foo.App", c.home)
    );
}

#[test]
fn test_list_installed_is_empty_when_no_backend_is_available() {
    assert!(list_installed(&ctx(), &Host::new(), &mut FakeRunner::new()).is_empty());
}

#[test]
fn test_is_available_requires_pacman_command() {
    let mut c = ctx();
    assert!(!pacman::is_available(&c, &Host::new()));
    c.available_commands = Some(s(&["pacman"]));
    assert!(pacman::is_available(&c, &Host::new()));
}

#[test]
fn test_list_is_empty_without_canned_output() {
    assert!(pacman::list(&mut FakeRunner::new()).is_empty());
}

#[test]
fn test_list_parses_names_versions_aur_badge_and_sizes() {
    let qi = "Name            : foo\n\
              Installed Size  : 1024.00 KiB\n\
              \n\
              Name            : bar-aur\n\
              Installed Size  : 2.00 MiB\n";
    let mut runner = FakeRunner::new()
        .with(s(&["pacman", "-Q"]), cmd_output("foo 1.0-1\nbar-aur 2.0-1\n"))
        .with(s(&["pacman", "-Qm"]), cmd_output("bar-aur 2.0-1\n"))
        .with(s(&["pacman", "-Qi", "foo", "bar-aur"]), cmd_output(qi));

    let packages = pacman::list(&mut runner);
    assert_eq!(packages.len(), 2);
    assert_eq!(packages[0].name, "foo");
    assert_eq!(packages[0].version, "1.0-1");
    assert_eq!(packages[0].id, "foo");
    assert!(!packages[0].aur);
    assert_eq!(packages[0].size_bytes, Some(1024 * 1024));
    assert_eq!(packages[0].backend, Backend::Pacman);

    assert_eq!(packages[1].name, "bar-aur");
    assert!(packages[1].aur, "must be badged AUR via pacman -Qm");
    assert_eq!(packages[1].size_bytes, Some(2 * 1024 * 1024));
}

#[test]
fn test_list_handles_missing_qi_size_as_none() {
    let mut runner = FakeRunner::new()
        .with(s(&["pacman", "-Q"]), cmd_output("mystery 1.0-1\n"))
        .with(s(&["pacman", "-Qm"]), cmd_output(""))
        .with(s(&["pacman", "-Qi", "mystery"]), cmd_output(""));

    let packages = pacman::list(&mut runner);
    assert_eq!(packages.len(), 1);
    assert_eq!(packages[0].size_bytes, None);
}

#[test]
fn pacman_test_remove_argv_is_exact() {
    assert_eq!(
        pacman::remove_argv("foo"),
        s(&["pacman", "-Rns", "--noconfirm", "--", "foo"])
    );
}

#[test]
fn pacman_test_remove_argv_inserts_end_of_options_separator_before_a_dash_prefixed_name() {
    assert_eq!(
        pacman::remove_argv("-suspicious"),
        s(&["pacman", "-Rns", "--noconfirm", "--", "-suspicious"])
    );
}

#[test]
fn test_owners_parses_qo_output_into_a_path_to_package_map() {
    let files = s(&["/usr/share/applications/foo.desktop"]);
    let mut runner = FakeRunner::new().with(
        s(&["pacman", "-Qo", "--", "/usr/share/applications/foo.desktop"]),
        cmd_output("/usr/share/applications/foo.desktop is owned by foo 1.0-1\n"),
    );

    let owners = pacman::owners(&mut runner, &files);
    assert_eq!(owners, vec![(files[0].clone(), "foo".to_string())]);
}

#[test]
fn a_path_has_the_owner_that_is_named_last() {
    let mut runner = FakeRunner::new().with(
        s(&["pacman", "-Qo", "--", "/usr/bin/a", "/usr/bin/b"]),
        cmd_output(
            "/usr/bin/a is owned by first 1.0-1\n\
             /usr/bin/b is owned by other 1.0-1\n\
             /usr/bin//a is owned by last 2.0-1\n",
        ),
    );
    let owners = pacman::owners(&mut runner, &s(&["/usr/bin/a", "/usr/bin/b"]));
    let pair = |a: &str, b: &str| (a.to_string(), b.to_string());
    assert_eq!(owners, vec![pair("/usr/bin/a", "last"), pair("/usr/bin/b", "other")]);
    assert_eq!(runner.canned.len(), 1);
}

#[test]
fn test_owners_is_empty_for_empty_file_list() {
    let mut runner = FakeRunner::new();
    assert!(pacman::owners(&mut runner, &Vec::new()).is_empty());
    assert!(runner.calls.is_empty());
}

#[test]
fn test_owners_tolerates_partial_failure_and_keeps_what_parsed() {
    let files = s(&[
        "/usr/share/applications/foo.desktop",
        "/usr/share/applications/unowned.desktop",
    ]);
    let mut runner = FakeRunner::new().with(
        s(&[
            "pacman",
            "-Qo",
            "--",
            "/usr/share/applications/foo.desktop",
            "/usr/share/applications/unowned.desktop",
        ]),
        CmdOutput {
            success: false,
            stdout: "/usr/share/applications/foo.desktop is owned by foo 1.0-1\n".to_string(),
            stderr: "error: No package owns /usr/share/applications/unowned.desktop\n".to_string(),
        },
    );

    let owners = pacman::owners(&mut runner, &files);
    assert_eq!(owners.len(), 1);
    assert_eq!(owners[0], (files[0].clone(), "foo".to_string()));
}

#[test]
fn test_owners_is_empty_when_the_whole_command_fails_to_run() {
    let files = s(&["/usr/share/applications/foo.desktop"]);
    assert!(pacman::owners(&mut FakeRunner::new(), &files).is_empty());
}

#[test]
fn test_file_list_parses_qql_lines() {
    let mut runner = FakeRunner::new().with(
        s(&["pacman", "-Qql", "foo"]),
        cmd_output("/usr/bin/foo\n/usr/share/foo/data\n"),
    );
    assert_eq!(
        pacman::file_list(&mut runner, "foo"),
        s(&["/usr/bin/foo", "/usr/share/foo/data"])
    );
}

#[test]
fn test_is_available_requires_snap_command() {
    let mut c = ctx();
    assert!(!snap::is_available(&c, &Host::new()));
    c.available_commands = Some(s(&["snap"]));
    assert!(snap::is_available(&c, &Host::new()));
}

#[test]
fn test_list_skips_header_and_parses_name_and_version() {
    let mut runner = FakeRunner::new().with(
        s(&["snap", "list"]),
        cmd_output(
            "Name    Version   Rev    Tracking       Publisher   Notes\n\
             hello   2.10      1234   latest/stable  canonical   -\n",
        ),
    );

    let packages = snap::list(&mut runner);
    assert_eq!(packages.len(), 1);
    assert_eq!(packages[0].name, "hello");
    assert_eq!(packages[0].id, "hello");
    assert_eq!(packages[0].version, "2.10");
    assert_eq!(packages[0].backend, Backend::Snap);
    assert_eq!(packages[0].size_bytes, None);
}

#[test]
fn snap_test_remove_argv_is_exact() {
    assert_eq!(snap::remove_argv("hello"), s(&["snap", "remove", "--", "hello"]));
}

#[test]
fn snap_test_remove_argv_inserts_end_of_options_separator_before_a_dash_prefixed_name() {
    assert_eq!(
        snap::remove_argv("-suspicious"),
        s(&["snap", "remove", "--", "-suspicious"])
    );
}

#[test]
fn normalizing_ignores_case_and_separators() {
    assert_eq!(normalize("Foo-Bar_Baz"), normalize("foobarbaz"));
}

#[test]
fn variants_are_the_name_and_its_lower_case() {
    assert_eq!(name_variants("Foo"), s(&["Foo", "foo"]));
    assert_eq!(name_variants("foo"), s(&["foo"]));
}

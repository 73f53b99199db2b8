use badger::config::Config;
use badger::ctx::{Ctx, EnvOverrides};
use badger::item::{Candidate, Risk};
use badger::output::{count_label, decide, humanize_bytes, Mode};
use badger::ratio::{percent_string, twentieths_of, whole_percent};
use badger::runner::{
    runner_for, CmdOutput, CommandRunner, FakeRunner, RawOutput, RealRunner, Shell,
};
use badger::util::parse_human_size;

fn s(list: &[&str]) -> Vec<String> {
    list.iter().map(|x| x.to_string()).collect()
}

fn sandboxed_ctx(canned: Option<Vec<(Vec<String>, CmdOutput)>>) -> Ctx {
    Ctx {
        root: "/sandbox/root".to_string(),
        home: "/sandbox/root/home/user".to_string(),
        config_dir: "/sandbox/config".to_string(),
        state_dir: "/sandbox/state".to_string(),
        dry_run: false,
        debug: false,
        config: Config::default(),
        sandboxed: true,
        available_commands: None,
        fake_command_output: canned,
    }
}

#[test]
fn test_safe_candidate_defaults_selectable() {
    let c = Candidate::new(None, "thumbnails".to_string(), 1024, Risk::Safe);
    assert!(c.selectable);
    assert!(!c.whitelisted);
}

#[test]
fn test_moderate_candidate_defaults_unselectable() {
    let c = Candidate::new(None, "journal".to_string(), 0, Risk::Moderate);
    assert!(!c.selectable);
}

#[test]
fn test_risky_candidate_defaults_unselectable() {
    let c = Candidate::new(None, "risky".to_string(), 0, Risk::Risky);
    assert!(!c.selectable);
}

#[test]
fn test_runner_for_sandboxed_returns_canned_output_from_ctx() {
    let argv = s(&["pacman", "-Qtdq"]);
    let canned = vec![(
        argv.clone(),
        CmdOutput {
            success: true,
            stdout: "orphan-pkg\n".to_string(),
            stderr: String::new(),
        },
    )];
    let ctx = sandboxed_ctx(Some(canned));
    let mut runner = runner_for(&ctx, FakeRunner::new());
    let out = runner.run(&argv).unwrap();
    assert_eq!(out.stdout, "orphan-pkg\n");
}

#[test]
fn test_runner_for_sandboxed_with_no_canned_output_errors_rather_than_running_for_real() {
    let ctx = sandboxed_ctx(None);
    let real = FakeRunner::new().with(
        s(&["pacman", "-Qtdq"]),
        CmdOutput {
            success: true,
            stdout: "ran for real".to_string(),
            stderr: String::new(),
        },
    );
    let mut runner = runner_for(&ctx, real);
    assert!(runner.run(&s(&["pacman", "-Qtdq"])).is_err());
}

#[test]
fn unsandboxed_runner_is_the_real_one() {
    let mut ctx = sandboxed_ctx(None);
    ctx.sandboxed = false;
    let real = FakeRunner::new().with(
        s(&["true"]),
        CmdOutput {
            success: true,
            stdout: "for real".to_string(),
            stderr: String::new(),
        },
    );
    let mut runner = runner_for(&ctx, real);
    assert_eq!(runner.run(&s(&["true"])).unwrap().stdout, "for real");
}

/// Knows two programs.
struct Coreutils;

impl Shell for Coreutils {
    fn start(&mut self, program: &str, args: &Vec<String>) -> Result<RawOutput, String> {
        match program {
            "echo" => Ok(RawOutput {
                success: true,
                stdout: format!("{}\n", args.join(" ")).into_bytes(),
                stderr: Vec::new(),
            }),
            "false" => {
                Ok(RawOutput { success: false, stdout: vec![b'a', 0xff], stderr: Vec::new() })
            }
            _ => Err("No such file or directory".to_string()),
        }
    }
}

#[test]
fn test_real_runner_captures_stdout_and_success() {
    let out = RealRunner::new(Coreutils).run(&s(&["echo", "hello"])).unwrap();
    assert!(out.success);
    assert_eq!(out.stdout.trim(), "hello");
}

#[test]
fn test_real_runner_reports_failure_without_erroring() {
    let out = RealRunner::new(Coreutils).run(&s(&["false"])).unwrap();
    assert!(!out.success);
    assert_eq!(out.stdout, "a\u{fffd}");
}

#[test]
fn a_program_that_cannot_be_started_is_named() {
    let mut runner = RealRunner::new(Coreutils);
    assert_eq!(
        runner.run(&s(&["nope", "x"])).unwrap_err(),
        "failed to run nope: No such file or directory"
    );
    assert_eq!(runner.run(&Vec::new()).unwrap_err(), "empty command");
}

#[test]
fn test_fake_runner_returns_canned_output_and_records_call() {
    let argv = s(&["paccache", "-rk2"]);
    let mut fake = FakeRunner::new().with(
        argv.clone(),
        CmdOutput {
            success: true,
            stdout: "ok".to_string(),
            stderr: String::new(),
        },
    );

    let out = fake.run(&argv).unwrap();
    assert!(out.success);
    assert_eq!(fake.calls.as_slice(), &[argv]);
}

#[test]
fn test_fake_runner_errors_on_unexpected_argv() {
    let mut fake = FakeRunner::new();
    let err = fake.run(&s(&["unexpected"])).unwrap_err();
    assert_eq!(err, "no canned response for [\"unexpected\"]");
}

#[test]
fn last_canned_answer_wins() {
    let out = |text: &str| CmdOutput {
        success: true,
        stdout: text.to_string(),
        stderr: String::new(),
    };
    let mut fake = FakeRunner::new().with(s(&["x"]), out("first")).with(s(&["x"]), out("second"));
    assert_eq!(fake.run(&s(&["x"])).unwrap().stdout, "second");
}

#[test]
fn test_flag_forces_json() {
    assert_eq!(decide(true, false, true), Mode::Json);
}

#[test]
fn test_env_forces_json() {
    assert_eq!(decide(false, true, true), Mode::Json);
}

#[test]
fn test_non_tty_forces_json() {
    assert_eq!(decide(false, false, false), Mode::Json);
}

#[test]
fn test_tty_no_flags_is_human() {
    assert_eq!(decide(false, false, true), Mode::Human);
}

#[test]
fn test_count_label_singular_and_plural() {
    assert_eq!(count_label(1, "item"), "1 item");
    assert_eq!(count_label(0, "item"), "0 items");
    assert_eq!(count_label(5, "task"), "5 tasks");
}

#[test]
fn test_humanize_bytes_stays_in_b_below_1024() {
    assert_eq!(humanize_bytes(0), "0 B");
    assert_eq!(humanize_bytes(500), "500 B");
}

#[test]
fn test_humanize_bytes_switches_to_kib() {
    assert_eq!(humanize_bytes(1024), "1.0 KiB");
    assert_eq!(humanize_bytes(1536), "1.5 KiB");
}

#[test]
fn test_humanize_bytes_switches_to_mib_and_gib() {
    assert_eq!(humanize_bytes(1024 * 1024), "1.0 MiB");
    assert_eq!(humanize_bytes(3 * 1024 * 1024 * 1024), "3.0 GiB");
}

fn humanized_by_floats(bytes: u64) -> String {
    const KIB: f64 = 1024.0;
    const MIB: f64 = KIB * 1024.0;
    const GIB: f64 = MIB * 1024.0;
    let b = bytes as f64;
    if b < KIB {
        format!("{bytes} B")
    } else if b < MIB {
        format!("{:.1} KiB", b / KIB)
    } else if b < GIB {
        format!("{:.1} MiB", b / MIB)
    } else {
        format!("{:.1} GiB", b / GIB)
    }
}

fn scattered(n: usize) -> Vec<u64> {
    let mut x: u64 = 0x9e37_79b9_7f4a_7c15;
    (0..n)
        .map(|i| {
            x ^= x << 13;
            x ^= x >> 7;
            x ^= x << 17;
            x >> (i % 60)
        })
        .collect()
}

#[test]
fn sizes_agree_with_floating_point() {
    for bytes in scattered(4000) {
        assert_eq!(humanize_bytes(bytes), humanized_by_floats(bytes), "{bytes}");
    }
    for bytes in [1023, 1024, 1025, 1075, 1126, 1 << 20, (1 << 30) - 1, u64::MAX] {
        assert_eq!(humanize_bytes(bytes), humanized_by_floats(bytes), "{bytes}");
    }
}

#[test]
fn percentages_agree_with_floating_point() {
    let numbers = scattered(3000);
    for pair in numbers.windows(2) {
        let (part, whole) = (pair[0], pair[1].max(1));
        let pct = part as f64 * 100.0 / whole as f64;
        assert_eq!(percent_string(part, whole), format!("{pct:.1}%"), "{part} of {whole}");
        assert_eq!(whole_percent(part, whole), format!("{pct:.0}"), "{part} of {whole}");
        let bar = (pct / 5.0).round();
        if bar < 1e15 {
            assert_eq!(twentieths_of(part, whole), bar as u128, "{part} of {whole}");
        }
    }
    for whole in [8u64, 40, 200, 2000, 20_000, 4096 * 2000] {
        for part in 0..whole.min(400) {
            let pct = part as f64 * 100.0 / whole as f64;
            assert_eq!(percent_string(part, whole), format!("{pct:.1}%"), "{part} of {whole}");
            assert_eq!(
                twentieths_of(part, whole),
                (pct / 5.0).round() as u128,
                "{part} of {whole}"
            );
        }
    }
    assert_eq!(percent_string(4096, 0), "0.0%");
    assert_eq!(percent_string(1, 2000), "0.1%");
    assert_eq!(percent_string(u64::MAX, u64::MAX), "100.0%");
    assert_eq!(percent_string(1, u64::MAX), "0.0%");
}

#[test]
fn human_sizes_are_read() {
    assert_eq!(parse_human_size("1024.00 KiB"), Some(1024 * 1024));
    assert_eq!(parse_human_size("2.00 MiB"), Some(2 * 1024 * 1024));
    assert_eq!(parse_human_size("nonsense"), None);
}

fn overrides() -> EnvOverrides {
    EnvOverrides {
        root: None,
        home: None,
        config_dir: None,
        xdg_config_home: None,
        xdg_state_home: None,
    }
}

#[test]
fn resolve_without_any_home_is_an_error() {
    assert!(Ctx::resolve(false, false, overrides(), None, None).is_err());
}

#[test]
fn test_default_resolution_with_fake_home() {
    let mut env = overrides();
    env.home = Some("/tmp/home".to_string());
    let ctx = Ctx::resolve(false, false, env, None, None).unwrap();
    assert_eq!(ctx.root, "/");
    assert_eq!(ctx.home, "/tmp/home");
    assert_eq!(ctx.config_dir, "/tmp/home/.config/badger");
    assert_eq!(ctx.state_dir, "/tmp/home/.local/state/badger");
    assert!(!ctx.sandboxed);
    assert_eq!(ctx.config, Config::default());
}

#[test]
fn test_badger_root_sets_sandboxed() {
    let mut env = overrides();
    env.root = Some("/tmp/root".to_string());
    env.home = Some("/tmp/home".to_string());
    let ctx = Ctx::resolve(false, false, env, None, None).unwrap();
    assert_eq!(ctx.root, "/tmp/root");
    assert!(ctx.sandboxed);
}

#[test]
fn test_badger_home_ignores_xdg_overrides() {
    let mut env = overrides();
    env.home = Some("/tmp/home".to_string());
    env.xdg_config_home = Some("/tmp/xdg-config".to_string());
    env.xdg_state_home = Some("/tmp/xdg-state".to_string());
    let ctx = Ctx::resolve(false, false, env, None, None).unwrap();
    assert_eq!(ctx.config_dir, "/tmp/home/.config/badger");
    assert_eq!(ctx.state_dir, "/tmp/home/.local/state/badger");
}

#[test]
fn test_config_dir_override_wins() {
    let mut env = overrides();
    env.home = Some("/tmp/home".to_string());
    env.config_dir = Some("/tmp/custom-config".to_string());
    let ctx = Ctx::resolve(false, false, env, None, None).unwrap();
    assert_eq!(ctx.config_dir, "/tmp/custom-config");
}

#[test]
fn resolve_uses_home_and_xdg_variables() {
    let mut env = overrides();
    env.xdg_config_home = Some("/xdg/config".to_string());
    let ctx = Ctx::resolve(true, false, env, Some("/home/user".to_string()), None).unwrap();
    assert_eq!(ctx.root, "/");
    assert_eq!(ctx.home, "/home/user");
    assert_eq!(ctx.config_dir, "/xdg/config/badger");
    assert_eq!(ctx.state_dir, "/home/user/.local/state/badger");
    assert!(ctx.dry_run);
}

#[test]
fn default_settings() {
    let config = Config::default();
    assert_eq!(config.clean.trash_older_than_days, 30);
    assert_eq!(config.purge.recent_days, 7);
    assert!(config.snapshots.manage);
    assert_eq!(config.optimize.mirror_tool, "auto");
}

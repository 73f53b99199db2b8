//! Where the program looks and keeps its things.

use vstd::prelude::*;

use crate::config::Config;
use crate::paths;
use crate::runner::CmdOutput;
use crate::text;

verus! {

#[derive(Debug, Clone, Default)]
pub struct EnvOverrides {
    pub root: Option<String>,
    pub home: Option<String>,
    pub config_dir: Option<String>,
    pub xdg_config_home: Option<String>,
    pub xdg_state_home: Option<String>,
}

#[derive(Debug, Clone)]
pub struct Ctx {
    pub root: String,
    pub home: String,
    pub config_dir: String,
    pub state_dir: String,
    pub dry_run: bool,
    pub debug: bool,
    pub config: Config,
    pub sandboxed: bool,
    /// Which commands `Applicability::CommandExists` should treat as present
    /// while `sandboxed`: the comma-separated `BADGER_COMMANDS` variable.
    pub available_commands: Option<Vec<String>>,
    /// What a command answers while `sandboxed`, by its exact argv.
    pub fake_command_output: Option<Vec<(Vec<String>, CmdOutput)>>,
}

/// The home directory: the override, else the `HOME` variable.
pub open spec fn home_dir(env: EnvOverrides, home_var: Option<String>) -> Option<Seq<char>> {
    match env.home {
        Some(home) => Some(home@),
        None => text::opt_text(home_var),
    }
}

/// `badger` below the XDG directory; a home override keeps everything below
/// that home, whatever the XDG variables say.
pub open spec fn badger_dir(
    env: EnvOverrides,
    home: Seq<char>,
    xdg: Option<String>,
    default: Seq<char>,
) -> Seq<char> {
    let base = match xdg {
        Some(dir) if env.home is None => dir@,
        _ => paths::joined(home, default),
    };
    paths::joined(base, "badger"@)
}

pub open spec fn root_dir(env: EnvOverrides) -> Seq<char> {
    match env.root {
        Some(root) => root@,
        None => "/"@,
    }
}

pub open spec fn config_dir(env: EnvOverrides, home: Seq<char>) -> Seq<char> {
    match env.config_dir {
        Some(dir) => dir@,
        None => badger_dir(env, home, env.xdg_config_home, ".config"@),
    }
}

pub open spec fn state_dir(env: EnvOverrides, home: Seq<char>) -> Seq<char> {
    badger_dir(env, home, env.xdg_state_home, ".local/state"@)
}

fn badger_dir_text(home_overridden: bool, home: &str, xdg: &Option<String>, default: &str) -> (r:
    String)
    ensures
        forall|env: EnvOverrides|
            #![trigger badger_dir(env, home@, *xdg, default@)]
            (env.home is Some) == home_overridden ==> r@ == badger_dir(
                env,
                home@,
                *xdg,
                default@,
            ),
{
    let base = match xdg {
        Some(dir) if !home_overridden => dir.clone(),
        _ => paths::join(home, default),
    };
    paths::join(base.as_str(), "badger")
}

impl Ctx {
    /// Puts the context together. `home_var` is the `HOME` variable and
    /// `commands_var` the `BADGER_COMMANDS` one. The settings are those of an
    /// empty file: whoever reads the file in `config_dir` puts them in place.
    pub fn resolve(
        dry_run: bool,
        debug: bool,
        env: EnvOverrides,
        home_var: Option<String>,
        commands_var: Option<String>,
    ) -> (r: Result<Ctx, String>)
        ensures
            match home_dir(env, home_var) {
                None => r is Err && r->Err_0@
                    == "HOME is not set and no home override was given"@,
                Some(home) => {
                    &&& r is Ok
                    &&& r->Ok_0.root@ == root_dir(env)
                    &&& r->Ok_0.sandboxed == !paths::same_path(root_dir(env), "/"@)
                    &&& r->Ok_0.home@ == home
                    &&& r->Ok_0.config_dir@ == config_dir(env, home)
                    &&& r->Ok_0.state_dir@ == state_dir(env, home)
                    &&& r->Ok_0.dry_run == dry_run
                    &&& r->Ok_0.debug == debug
                    &&& r->Ok_0.config.is_default()
                    &&& r->Ok_0.fake_command_output is None
                    &&& match r->Ok_0.available_commands {
                        Some(list) => r->Ok_0.sandboxed && commands_var is Some && text::texts(
                            list@,
                        ) == text::fields(commands_var->Some_0@, ','),
                        None => !r->Ok_0.sandboxed || commands_var is None,
                    }
                },
            },
    {
        let root = match &env.root {
            Some(root) => root.clone(),
            None => "/".to_owned(),
        };
        let sandboxed = !paths::is_same_path(root.as_str(), "/");
        let home_overridden = env.home.is_some();
        let home = match &env.home {
            Some(home) => home.clone(),
            None => match home_var {
                Some(home) => home,
                None => {
                    return Err("HOME is not set and no home override was given".to_owned());
                },
            },
        };
        let config_dir = match &env.config_dir {
            Some(dir) => dir.clone(),
            None => badger_dir_text(home_overridden, home.as_str(), &env.xdg_config_home, ".config"),
        };
        let state_dir = badger_dir_text(
            home_overridden,
            home.as_str(),
            &env.xdg_state_home,
            ".local/state",
        );
        let available_commands = match commands_var {
            Some(list) if sandboxed => Some(text::split(list.as_str(), ',')),
            _ => None,
        };
        Ok(
            Ctx {
                root,
                home,
                config_dir,
                state_dir,
                dry_run,
                debug,
                config: Config::default(),
                sandboxed,
                available_commands,
                fake_command_output: None,
            },
        )
    }
}

// ------------------------------------------------------------------------ laws


/// The settings lie where they are asked for, else below the XDG directory,
/// else below the home directory; a home directory that is asked for keeps
/// everything below it.
pub proof fn law_directories_follow_the_home(env: EnvOverrides, home: Seq<char>)
    requires
        home.len() > 0,
        home.last() != '/',
    ensures
        env.config_dir is Some ==> config_dir(env, home) == env.config_dir->0@,
        env.config_dir is None && env.home is None && env.xdg_config_home is Some
            ==> config_dir(env, home) == paths::joined(env.xdg_config_home->0@, "badger"@),
        env.config_dir is None && (env.home is Some || env.xdg_config_home is None)
            ==> config_dir(env, home) == home + "/.config/badger"@,
        env.home is None && env.xdg_state_home is Some ==> state_dir(env, home)
            == paths::joined(env.xdg_state_home->0@, "badger"@),
        env.home is Some || env.xdg_state_home is None ==> state_dir(env, home) == home
            + "/.local/state/badger"@,
        env.root is Some ==> root_dir(env) == env.root->0@,
        env.root is None ==> root_dir(env) == "/"@,
        forall|home_var: Option<String>|
            env.home is Some ==> #[trigger] home_dir(env, home_var) == Some(env.home->0@),
        forall|home_var: Option<String>|
            env.home is None && home_var is Some ==> #[trigger] home_dir(env, home_var) == Some(
                home_var->0@,
            ),
        env.home is None ==> home_dir(env, None) is None,
{
    reveal_strlit("/");
    reveal_strlit("badger");
    reveal_strlit(".config");
    reveal_strlit("/.config/badger");
    reveal_strlit(".local/state");
    reveal_strlit("/.local/state/badger");
    let a = home + "/"@ + ".config"@;
    let b = home + "/"@ + ".local/state"@;
    assert(paths::joined(home, ".config"@) =~= a);
    assert(paths::joined(home, ".local/state"@) =~= b);
    assert(a.last() == 'g');
    assert(b.last() == 'e');
    assert(paths::joined(a, "badger"@) =~= home + "/.config/badger"@);
    assert(paths::joined(b, "badger"@) =~= home + "/.local/state/badger"@);
}

} // verus!

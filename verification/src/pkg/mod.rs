//! Installed-package backends for `badger uninstall`: what is installed
//! (pacman/AUR, flatpak, snap) and the argv each backend's removal takes.
//! Every backend goes through a `CommandRunner`.

pub mod desktop;
pub mod flatpak;
pub mod pacman;
pub mod recommend;
pub mod snap;

use vstd::prelude::*;

use crate::ctx::Ctx;
use crate::host::Host;
use crate::runner::{CommandRunner, Exchange};
use crate::text;

verus! {

broadcast use vstd::seq::group_seq_axioms;

#[derive(Debug, Clone, Copy, PartialEq, Eq, Structural)]
pub enum Backend {
    Pacman,
    Flatpak,
    Snap,
}

impl Backend {
    pub open spec fn name(self) -> Seq<char> {
        match self {
            Backend::Pacman => "pacman"@,
            Backend::Flatpak => "flatpak"@,
            Backend::Snap => "snap"@,
        }
    }

    /// Display label for the picker's `[pacman|aur|flatpak|snap]` badge.
    /// `aur` itself is not a backend: it is `Pacman` with
    /// `InstalledPackage::aur` set, and callers that want the "aur" badge
    /// check that flag before falling back to this label.
    pub fn label(self) -> (r: &'static str)
        ensures
            r@ == self.name(),
    {
        match self {
            Backend::Pacman => "pacman",
            Backend::Flatpak => "flatpak",
            Backend::Snap => "snap",
        }
    }
}

#[derive(Debug, PartialEq)]
pub struct InstalledPackage {
    pub backend: Backend,
    /// The identifier the backend's own remove command takes: a pacman
    /// package name, a flatpak application ID, or a snap name.
    pub id: String,
    pub name: String,
    pub version: String,
    pub size_bytes: Option<u64>,
    /// `true` for a pacman package installed from the AUR (foreign,
    /// `pacman -Qm`). Always `false` for flatpak/snap.
    pub aur: bool,
}

/// An installed package as a mathematical value.
pub struct PackageModel {
    pub backend: Backend,
    pub id: Seq<char>,
    pub name: Seq<char>,
    pub version: Seq<char>,
    pub size_bytes: Option<u64>,
    pub aur: bool,
}

impl View for InstalledPackage {
    type V = PackageModel;

    open spec fn view(&self) -> PackageModel {
        PackageModel {
            backend: self.backend,
            id: self.id@,
            name: self.name@,
            version: self.version@,
            size_bytes: self.size_bytes,
            aur: self.aur,
        }
    }
}

impl Clone for InstalledPackage {
    fn clone(&self) -> (r: Self)
        ensures
            r@ == self@,
    {
        InstalledPackage {
            backend: self.backend,
            id: self.id.clone(),
            name: self.name.clone(),
            version: self.version.clone(),
            size_bytes: self.size_bytes,
            aur: self.aur,
        }
    }
}

pub open spec fn packages(v: Seq<InstalledPackage>) -> Seq<PackageModel> {
    Seq::new(v.len(), |i: int| v[i]@)
}

/// Where the listing of flatpak starts in the log.
pub open spec fn flatpak_start(log: Seq<Exchange>, start: int, pacman: bool) -> int {
    if pacman {
        start + pacman::list_steps(log, start)
    } else {
        start
    }
}

pub open spec fn snap_start(log: Seq<Exchange>, start: int, pacman: bool, flatpak: bool) -> int {
    flatpak_start(log, start, pacman) + (if flatpak {
        1int
    } else {
        0int
    })
}

/// Whether the commands of `log` from `start` on list what is installed
/// through the backends there are, and nothing else.
pub open spec fn installed_asked(
    log: Seq<Exchange>,
    start: int,
    pacman: bool,
    flatpak: bool,
    snap: bool,
) -> bool {
    let f = flatpak_start(log, start, pacman);
    let s = snap_start(log, start, pacman, flatpak);
    &&& pacman ==> pacman::list_asked(log, start)
    &&& flatpak ==> log[f].argv == flatpak::list_argv()
    &&& snap ==> log[s].argv == snap::list_argv()
    &&& log.len() == s + (if snap {
        1int
    } else {
        0int
    })
}

/// What they come to.
pub open spec fn installed_found(
    log: Seq<Exchange>,
    start: int,
    pacman: bool,
    flatpak: bool,
    snap: bool,
) -> Seq<PackageModel> {
    let f = flatpak_start(log, start, pacman);
    let s = snap_start(log, start, pacman, flatpak);
    (if pacman {
        pacman::list_found(log, start)
    } else {
        Seq::empty()
    }) + (if flatpak {
        flatpak::list_reply(log[f].reply)
    } else {
        Seq::empty()
    }) + (if snap {
        snap::list_reply(log[s].reply)
    } else {
        Seq::empty()
    })
}

/// Every installed package across whichever backends are present. An absent
/// backend is skipped silently.
pub fn list_installed<R: CommandRunner>(ctx: &Ctx, host: &Host, runner: &mut R) -> (r: Vec<
    InstalledPackage,
>)
    ensures
        final(runner).prepared() == old(runner).prepared(),
        ({
            let start = old(runner).exchanges().len() as int;
            let log = final(runner).exchanges();
            let p = pacman::available(ctx, host);
            let f = flatpak::available(ctx, host);
            let s = snap::available(ctx, host);
            &&& log.len() >= start
            &&& log.take(start) == old(runner).exchanges()
            &&& installed_asked(log, start, p, f, s)
            &&& packages(r@) == installed_found(log, start, p, f, s)
        }),
{
    let ghost before = runner.exchanges();
    let ghost start = before.len() as int;
    let mut all: Vec<InstalledPackage> = Vec::new();
    assert(packages(all@) =~= Seq::empty());
    assert(before.take(start) =~= before);
    let has_pacman = pacman::is_available(ctx, host);
    let has_flatpak = flatpak::is_available(ctx, host);
    let has_snap = snap::is_available(ctx, host);
    if has_pacman {
        all = pacman::list(runner);
    }
    let ghost log1 = runner.exchanges();
    let ghost list1 = packages(all@);
    if has_flatpak {
        let mut more = flatpak::list(runner);
        let ghost had = all@;
        let ghost got = more@;
        all.append(&mut more);
        assert(packages(all@) =~= packages(had) + packages(got));
        assert(runner.exchanges().take(log1.len() as int) =~= log1);
    }
    let ghost log2 = runner.exchanges();
    let ghost list2 = packages(all@);
    if has_snap {
        let mut more = snap::list(runner);
        let ghost had = all@;
        let ghost got = more@;
        all.append(&mut more);
        assert(packages(all@) =~= packages(had) + packages(got));
        assert(runner.exchanges().take(log2.len() as int) =~= log2);
    }
    proof {
        let log = runner.exchanges();
        assert forall|k: int| 0 <= k < log1.len() implies log[k] == log1[k] by {
            if has_flatpak {
                assert(log2.drop_last()[k] == log2[k]);
            }
            if has_snap {
                assert(log.drop_last()[k] == log[k]);
            }
        }
        assert forall|k: int| 0 <= k < log2.len() implies log[k] == log2[k] by {
            if has_snap {
                assert(log.drop_last()[k] == log[k]);
            }
        }
        assert(log.take(start) =~= log1.take(start));
        let f = flatpak_start(log, start, has_pacman);
        assert(f == log1.len());
        assert(packages(all@) =~= installed_found(log, start, has_pacman, has_flatpak, has_snap));
    }
    all
}

// ------------------------------------------------------------------------ laws


/// Whatever a package manager that is there reports is listed: it is asked in
/// its own words, and all that it answers is in the list, which holds nothing
/// else.
pub proof fn law_every_backend_is_listed(
    ctx: &Ctx,
    host: &Host,
    log: Seq<Exchange>,
    start: int,
)
    requires
        0 <= start,
        installed_asked(
            log,
            start,
            pacman::available(ctx, host),
            flatpak::available(ctx, host),
            snap::available(ctx, host),
        ),
    ensures
        ({
            let all = installed_found(
                log,
                start,
                pacman::available(ctx, host),
                flatpak::available(ctx, host),
                snap::available(ctx, host),
            );
            let there = if ctx.sandboxed {
                match ctx.available_commands {
                    Some(list) => text::texts(list@),
                    None => Seq::empty(),
                }
            } else {
                text::texts(host.commands@)
            };
            exists|f: int, s: int|
                #![trigger log[f], log[s]]
                {
                    let a = if there.contains("pacman"@) {
                        pacman::list_found(log, start)
                    } else {
                        Seq::empty()
                    };
                    let b = if there.contains("flatpak"@) {
                        flatpak::list_reply(log[f].reply)
                    } else {
                        Seq::empty()
                    };
                    let c = if there.contains("snap"@) {
                        snap::list_reply(log[s].reply)
                    } else {
                        Seq::empty()
                    };
                    &&& start <= f
                    &&& start <= s
                    &&& there.contains("pacman"@) ==> log[start].argv == seq!["pacman"@, "-Q"@]
                    &&& there.contains("flatpak"@) ==> log[f].argv == seq![
                        "flatpak"@,
                        "list"@,
                        "--app"@,
                        "--columns=application,name,version"@,
                    ]
                    &&& there.contains("snap"@) ==> log[s].argv == seq!["snap"@, "list"@]
                    &&& all == a + b + c
                }
        }),
{
    let f = flatpak_start(log, start, pacman::available(ctx, host));
    let s = snap_start(
        log,
        start,
        pacman::available(ctx, host),
        flatpak::available(ctx, host),
    );
    let at_f = log[f];
    let at_s = log[s];
    assert(at_f == log[f] && at_s == log[s]);
}

/// Each package manager that is there is asked, and no other: with none,
/// nothing is asked; flatpak and snap take one command each.
pub proof fn law_managers_that_are_there_are_asked(log: Seq<Exchange>, start: int)
    ensures
        installed_asked(log, start, false, false, false) <==> log.len() == start,
        installed_asked(log, start, false, true, false) <==> log.len() == start + 1
            && log[start].argv == flatpak::list_argv(),
        installed_asked(log, start, false, false, true) <==> log.len() == start + 1
            && log[start].argv == snap::list_argv(),
        installed_asked(log, start, false, true, true) <==> log.len() == start + 2
            && log[start].argv == flatpak::list_argv() && log[start + 1].argv == snap::list_argv(),
        installed_asked(log, start, true, false, false) ==> pacman::list_asked(log, start)
            && log.len() == start + pacman::list_steps(log, start),
        installed_asked(log, start, true, true, true) ==> {
            let n = start + pacman::list_steps(log, start);
            &&& pacman::list_asked(log, start)
            &&& log[n].argv == flatpak::list_argv()
            &&& log[n + 1].argv == snap::list_argv()
            &&& log.len() == n + 2
        },
{
}

} // verus!

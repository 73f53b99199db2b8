//! The user's settings and their defaults.

use vstd::prelude::*;

use crate::text;

verus! {

#[derive(Debug, Clone, PartialEq)]
pub struct Config {
    pub clean: Clean,
    pub purge: Purge,
    pub snapshots: Snapshots,
    pub optimize: Optimize,
    pub ui: Ui,
    pub uninstall: Uninstall,
}

#[derive(Debug, Clone, PartialEq)]
pub struct Clean {
    pub paccache_keep: u32,
    pub journal_max_size: String,
    pub trash_older_than_days: u32,
    /// How old (by mtime) an unmatched `~/.config`/`~/.local/share`/`~/.cache`
    /// directory must be before `leftovers.orphan_configs` (experimental)
    /// will consider it a candidate.
    pub orphan_min_age_days: u32,
}

#[derive(Debug, Clone, PartialEq)]
pub struct Purge {
    pub roots: Vec<String>,
    pub recent_days: u32,
}

#[derive(Debug, Clone, PartialEq)]
pub struct Snapshots {
    pub manage: bool,
}

#[derive(Debug, Clone, PartialEq)]
pub struct Optimize {
    pub mirror_tool: String,
}

#[derive(Debug, Clone, PartialEq)]
pub struct Ui {
    pub mascot: bool,
}

#[derive(Debug, Clone, PartialEq)]
pub struct Uninstall {
    /// How old (by mtime) an app's `~/.cache/<name>` and `~/.config/<name>`
    /// must be, with none touched more recently, before the uninstall
    /// picker's Applications view hints it as possibly unused.
    pub unused_days: u32,
}

impl Default for Clean {
    fn default() -> (r: Self)
        ensures
            r.is_default(),
    {
        Clean {
            paccache_keep: 2,
            journal_max_size: "300M".to_owned(),
            trash_older_than_days: 30,
            orphan_min_age_days: 180,
        }
    }
}

impl Clean {
    pub open spec fn is_default(&self) -> bool {
        &&& self.paccache_keep == 2
        &&& self.journal_max_size@ == "300M"@
        &&& self.trash_older_than_days == 30
        &&& self.orphan_min_age_days == 180
    }
}

impl Default for Purge {
    fn default() -> (r: Self)
        ensures
            r.is_default(),
    {
        let roots = vec!["~/dev".to_owned(), "~/projects".to_owned(), "~/claude_apps".to_owned()];
        assert(text::texts(roots@) =~= seq!["~/dev"@, "~/projects"@, "~/claude_apps"@]);
        Purge { roots, recent_days: 7 }
    }
}

impl Purge {
    pub open spec fn is_default(&self) -> bool {
        &&& text::texts(self.roots@) == seq!["~/dev"@, "~/projects"@, "~/claude_apps"@]
        &&& self.recent_days == 7
    }
}

impl Default for Snapshots {
    fn default() -> (r: Self)
        ensures
            r.manage,
    {
        Snapshots { manage: true }
    }
}

impl Default for Optimize {
    fn default() -> (r: Self)
        ensures
            r.mirror_tool@ == "auto"@,
    {
        Optimize { mirror_tool: "auto".to_owned() }
    }
}

impl Default for Ui {
    fn default() -> (r: Self)
        ensures
            r.mascot,
    {
        Ui { mascot: true }
    }
}

impl Default for Uninstall {
    fn default() -> (r: Self)
        ensures
            r.unused_days == 90,
    {
        Uninstall { unused_days: 90 }
    }
}

impl Config {
    /// The settings of somebody who has not written any.
    pub open spec fn is_default(&self) -> bool {
        &&& self.clean.is_default()
        &&& self.purge.is_default()
        &&& self.snapshots.manage
        &&& self.optimize.mirror_tool@ == "auto"@
        &&& self.ui.mascot
        &&& self.uninstall.unused_days == 90
    }
}

impl Default for Config {
    fn default() -> (r: Self)
        ensures
            r.is_default(),
    {
        Config {
            clean: Clean::default(),
            purge: Purge::default(),
            snapshots: Snapshots::default(),
            optimize: Optimize::default(),
            ui: Ui::default(),
            uninstall: Uninstall::default(),
        }
    }
}

// ------------------------------------------------------------------------ laws


/// The settings of somebody who has not written any: two versions of each
/// package are kept and 300 MB of the journal; trash stays a month, leftovers
/// half a year, and projects a week; apps count as unused after three months.
pub proof fn law_settings_start_out_careful(c: &Config)
    requires
        c.is_default(),
    ensures
        c.clean.paccache_keep == 2,
        c.clean.journal_max_size@ == "300M"@,
        c.clean.trash_older_than_days == 30,
        c.clean.orphan_min_age_days == 180,
        c.purge.recent_days == 7,
        c.purge.roots@.len() == 3,
        c.purge.roots@[0]@ == "~/dev"@,
        c.purge.roots@[1]@ == "~/projects"@,
        c.purge.roots@[2]@ == "~/claude_apps"@,
        c.snapshots.manage,
        c.optimize.mirror_tool@ == "auto"@,
        c.ui.mascot,
        c.uninstall.unused_days == 90,
{
    let list = text::texts(c.purge.roots@);
    assert(list.len() == 3);
    assert(list[0] == c.purge.roots@[0]@);
    assert(list[1] == c.purge.roots@[1]@);
    assert(list[2] == c.purge.roots@[2]@);
}

} // verus!

//! What was found on the machine: a record of the commands, processes and
//! files that the rules ask about, taken before they are asked.

use vstd::prelude::*;

use crate::ctx::Ctx;
use crate::text;

verus! {

/// What a path is, links not followed.
#[derive(Debug, Clone, Copy, PartialEq, Eq, Structural)]
pub enum Kind {
    File,
    Dir,
    Link,
    Other,
}

/// One path that exists.
#[derive(Debug, Clone)]
pub struct Entry {
    pub path: String,
    pub kind: Kind,
    /// Whether the path leads to a directory, links followed.
    pub leads_to_dir: bool,
    /// Whether the path leads to a regular file, links followed.
    pub leads_to_file: bool,
    /// The names in the directory, in the order the system lists them.
    pub names: Option<Vec<String>>,
    /// The bytes the path takes on disk, with all that is below it.
    pub size: u64,
    /// Nanoseconds since the epoch of the last change, where known.
    pub modified: Option<i64>,
    /// The contents of a file that was read.
    pub text: Option<String>,
    pub uid: u32,
    pub dev: u64,
    pub ino: u64,
}

#[derive(Debug, Clone)]
pub struct Host {
    /// Nanoseconds since the epoch.
    pub now: i64,
    /// The commands found on `PATH`.
    pub commands: Vec<String>,
    /// The names of the running processes.
    pub processes: Vec<String>,
    /// The working directories and executables of the running processes;
    /// absent when they could not be listed.
    pub in_use: Option<Vec<String>>,
    pub entries: Vec<Entry>,
    /// Paths with the places they lead to once every link is followed.
    pub resolved: Vec<(String, String)>,
    /// Paths that could not be inspected or listed, with the system's reason.
    pub stat_errors: Vec<(String, String)>,
}

/// The first entry for `path`.
pub open spec fn entry_at(entries: Seq<Entry>, path: Seq<char>, from: int) -> Option<Entry>
    decreases entries.len() - from,
{
    if from < 0 || from >= entries.len() {
        None
    } else if entries[from].path@ == path {
        Some(entries[from])
    } else {
        entry_at(entries, path, from + 1)
    }
}

pub open spec fn resolved_at(
    table: Seq<(String, String)>,
    path: Seq<char>,
    from: int,
) -> Option<Seq<char>>
    decreases table.len() - from,
{
    if from < 0 || from >= table.len() {
        None
    } else if table[from].0@ == path {
        Some(table[from].1@)
    } else {
        resolved_at(table, path, from + 1)
    }
}

impl Host {
    /// The entry for `path`, where it exists.
    pub open spec fn found(&self, path: Seq<char>) -> Option<Entry> {
        entry_at(self.entries@, path, 0)
    }

    /// The names in the directory `path`, where it can be listed.
    pub open spec fn listing(&self, path: Seq<char>) -> Option<Seq<Seq<char>>> {
        match self.found(path) {
            Some(entry) => match entry.names {
                Some(names) => Some(text::texts(names@)),
                None => None,
            },
            None => None,
        }
    }

    /// Where `path` leads to.
    pub open spec fn real_path(&self, path: Seq<char>) -> Option<Seq<char>> {
        resolved_at(self.resolved@, path, 0)
    }

    /// Why `path` could not be inspected or listed.
    pub open spec fn stat_error(&self, path: Seq<char>) -> Seq<char> {
        match resolved_at(self.stat_errors@, path, 0) {
            Some(reason) => reason,
            None => "No such file or directory"@,
        }
    }

    /// The contents of the file `path`, where it could be read.
    pub open spec fn contents(&self, path: Seq<char>) -> Option<Seq<char>> {
        match self.found(path) {
            Some(entry) => text::opt_text(entry.text),
            None => None,
        }
    }

    pub open spec fn is_dir(&self, path: Seq<char>) -> bool {
        match self.found(path) {
            Some(entry) => entry.leads_to_dir,
            None => false,
        }
    }

    /// Whether the path leads to anything, links followed.
    pub open spec fn reaches(&self, path: Seq<char>) -> bool {
        match self.found(path) {
            Some(entry) => entry.kind != Kind::Link || entry.leads_to_dir || entry.leads_to_file,
            None => false,
        }
    }

    pub open spec fn is_file(&self, path: Seq<char>) -> bool {
        match self.found(path) {
            Some(entry) => entry.leads_to_file,
            None => false,
        }
    }

    /// The bytes below `path`; none where nothing is there.
    pub open spec fn size_of(&self, path: Seq<char>) -> u64 {
        match self.found(path) {
            Some(entry) => entry.size,
            None => 0,
        }
    }

    /// Whether the last change to `entry` lies at least `days` days back.
    /// An unknown time does not.
    pub open spec fn older_than(&self, entry: Entry, days: u32) -> bool {
        match entry.modified {
            Some(then) => then + days * 86_400_000_000_000 <= self.now,
            None => false,
        }
    }

    pub fn new() -> (r: Host)
        ensures
            r.now == 0,
            r.commands@.len() == 0,
            r.processes@.len() == 0,
            r.in_use is None,
            r.entries@.len() == 0,
            r.resolved@.len() == 0,
            r.stat_errors@.len() == 0,
    {
        Host {
            now: 0,
            commands: Vec::new(),
            processes: Vec::new(),
            in_use: None,
            entries: Vec::new(),
            resolved: Vec::new(),
            stat_errors: Vec::new(),
        }
    }

    pub fn find(&self, path: &str) -> (r: Option<&Entry>)
        ensures
            match r {
                Some(entry) => self.found(path@) == Some(*entry),
                None => self.found(path@) is None,
            },
    {
        let mut i: usize = 0;
        while i < self.entries.len()
            invariant
                i <= self.entries.len(),
                self.found(path@) == entry_at(self.entries@, path@, i as int),
            decreases self.entries.len() - i,
        {
            if text::same(self.entries[i].path.as_str(), path) {
                return Some(&self.entries[i]);
            }
            i += 1;
        }
        None
    }

    pub fn list(&self, path: &str) -> (r: Option<&Vec<String>>)
        ensures
            match r {
                Some(names) => self.listing(path@) == Some(text::texts(names@)),
                None => self.listing(path@) is None,
            },
    {
        match self.find(path) {
            Some(entry) => match &entry.names {
                Some(names) => Some(names),
                None => None,
            },
            None => None,
        }
    }

    pub fn resolve(&self, path: &str) -> (r: Option<String>)
        ensures
            text::opt_text(r) == self.real_path(path@),
    {
        look_up(&self.resolved, path)
    }

    pub fn why_no_stat(&self, path: &str) -> (r: String)
        ensures
            r@ == self.stat_error(path@),
    {
        match look_up(&self.stat_errors, path) {
            Some(reason) => reason,
            None => "No such file or directory".to_owned(),
        }
    }

    pub fn read(&self, path: &str) -> (r: Option<String>)
        ensures
            text::opt_text(r) == self.contents(path@),
    {
        match self.find(path) {
            Some(entry) => text::copy_opt(&entry.text),
            None => None,
        }
    }

    pub fn leads_to_dir(&self, path: &str) -> (r: bool)
        ensures
            r == self.is_dir(path@),
    {
        match self.find(path) {
            Some(entry) => entry.leads_to_dir,
            None => false,
        }
    }

    pub fn is_there(&self, path: &str) -> (r: bool)
        ensures
            r == self.reaches(path@),
    {
        match self.find(path) {
            Some(entry) => entry.kind != Kind::Link || entry.leads_to_dir || entry.leads_to_file,
            None => false,
        }
    }

    pub fn leads_to_file(&self, path: &str) -> (r: bool)
        ensures
            r == self.is_file(path@),
    {
        match self.find(path) {
            Some(entry) => entry.leads_to_file,
            None => false,
        }
    }

    pub fn size(&self, path: &str) -> (r: u64)
        ensures
            r == self.size_of(path@),
    {
        match self.find(path) {
            Some(entry) => entry.size,
            None => 0,
        }
    }

    pub fn is_older_than(&self, entry: &Entry, days: u32) -> (r: bool)
        ensures
            r == self.older_than(*entry, days),
    {
        match entry.modified {
            Some(then) => then as i128 + days as i128 * 86_400_000_000_000 <= self.now as i128,
            None => false,
        }
    }
}

fn look_up(table: &Vec<(String, String)>, path: &str) -> (r: Option<String>)
    ensures
        text::opt_text(r) == resolved_at(table@, path@, 0),
{
    let mut i: usize = 0;
    while i < table.len()
        invariant
            i <= table.len(),
            resolved_at(table@, path@, 0) == resolved_at(table@, path@, i as int),
        decreases table.len() - i,
    {
        if text::same(table[i].0.as_str(), path) {
            return Some(table[i].1.clone());
        }
        i += 1;
    }
    None
}

/// Whether the command `name` can be run: found on `PATH`, or in a sandbox
/// declared in `ctx.available_commands`.
pub open spec fn available(name: Seq<char>, ctx: &Ctx, host: &Host) -> bool {
    if ctx.sandboxed {
        match ctx.available_commands {
            Some(list) => text::texts(list@).contains(name),
            None => false,
        }
    } else {
        text::texts(host.commands@).contains(name)
    }
}

/// Shared by rule applicability and any detector that picks between several
/// possible commands (e.g. `podman` or `docker`).
pub fn command_exists(name: &str, ctx: &Ctx, host: &Host) -> (r: bool)
    ensures
        r == available(name@, ctx, host),
{
    if ctx.sandboxed {
        match &ctx.available_commands {
            Some(list) => text::holds(list, name),
            None => false,
        }
    } else {
        text::holds(&host.commands, name)
    }
}

/// Whether a process named `name` is running. Never in a sandbox, which must
/// not depend on the real process table.
pub open spec fn running(name: Seq<char>, ctx: &Ctx, host: &Host) -> bool {
    !ctx.sandboxed && text::texts(host.processes@).contains(name)
}

pub fn process_running(name: &str, ctx: &Ctx, host: &Host) -> (r: bool)
    ensures
        r == running(name@, ctx, host),
{
    if ctx.sandboxed {
        return false;
    }
    text::holds(&host.processes, name)
}

// --------------------------------------------------------------- going down

/// The length of the longest of the first `n` paths.
pub open spec fn longest(entries: Seq<Entry>, n: int) -> nat
    decreases n,
{
    if n <= 0 {
        0
    } else {
        let before = longest(entries, n - 1);
        let this = entries[n - 1].path@.len();
        if this > before {
            this
        } else {
            before
        }
    }
}

proof fn lemma_longest(entries: Seq<Entry>, k: int, n: int)
    requires
        0 <= k < n <= entries.len(),
    ensures
        entries[k].path@.len() <= longest(entries, n),
    decreases n,
{
    if k < n - 1 {
        lemma_longest(entries, k, n - 1);
    }
}

/// How much longer than `dir` a known path can be.
pub open spec fn room(dir: Seq<char>, host: &Host) -> nat {
    let most = longest(host.entries@, host.entries@.len() as int) + 1;
    if dir.len() < most {
        (most - dir.len()) as nat
    } else {
        0
    }
}

/// A path that is known leaves less room than the directory it lies in.
pub proof fn lemma_room_shrinks(dir: Seq<char>, path: Seq<char>, host: &Host)
    requires
        host.found(path) is Some,
        path.len() > dir.len(),
    ensures
        room(path, host) < room(dir, host),
{
    lemma_found_is_known(host.entries@, path, 0);
    let k = choose|k: int| 0 <= k < host.entries@.len() && #[trigger] host.entries@[k].path@ == path;
    lemma_longest(host.entries@, k, host.entries@.len() as int);
}

proof fn lemma_found_is_known(entries: Seq<Entry>, path: Seq<char>, from: int)
    requires
        0 <= from,
        entry_at(entries, path, from) is Some,
    ensures
        exists|k: int| 0 <= k < entries.len() && #[trigger] entries[k].path@ == path,
    decreases entries.len() - from,
{
    if entries[from].path@ != path {
        lemma_found_is_known(entries, path, from + 1);
    }
}

// ------------------------------------------------------------------------ laws


/// The first entry of a path is what is found there, and what has no entry
/// is not there.
pub proof fn law_the_first_entry_counts(host: &Host, path: Seq<char>, i: int)
    requires
        0 <= i <= host.entries@.len(),
        forall|k: int| 0 <= k < i ==> (#[trigger] host.entries@[k]).path@ != path,
        i < host.entries@.len() ==> host.entries@[i].path@ == path,
    ensures
        i < host.entries@.len() ==> host.found(path) == Some(host.entries@[i]),
        i == host.entries@.len() ==> host.found(path) is None && host.listing(path) is None,
        i < host.entries@.len() && host.entries@[i].names is Some ==> {
            let names = host.entries@[i].names->0@;
            &&& host.listing(path) is Some
            &&& host.listing(path)->0.len() == names.len()
            &&& forall|k: int|
                0 <= k < names.len() ==> #[trigger] host.listing(path)->0[k] == names[k]@
        },
        i < host.entries@.len() && host.entries@[i].names is None ==> host.listing(path) is None,
{
    lemma_first_entry(host.entries@, path, 0, i);
}

proof fn lemma_first_entry(entries: Seq<Entry>, path: Seq<char>, from: int, i: int)
    requires
        0 <= from <= i <= entries.len(),
        forall|k: int| from <= k < i ==> (#[trigger] entries[k]).path@ != path,
        i < entries.len() ==> entries[i].path@ == path,
    ensures
        i < entries.len() ==> entry_at(entries, path, from) == Some(entries[i]),
        i == entries.len() ==> entry_at(entries, path, from) is None,
    decreases i - from,
{
    if from < i {
        lemma_first_entry(entries, path, from + 1, i);
    }
}

/// Outside a sandbox a command is there where it was found, and in a sandbox
/// where it was declared; a process runs outside a sandbox only.
pub proof fn law_sandboxes_see_what_is_declared(name: Seq<char>, ctx: &Ctx, host: &Host)
    ensures
        !ctx.sandboxed ==> (available(name, ctx, host) <==> exists|i: int|
            0 <= i < host.commands@.len() && (#[trigger] host.commands@[i])@ == name),
        ctx.sandboxed && ctx.available_commands is Some ==> (available(name, ctx, host)
            <==> exists|i: int|
            0 <= i < ctx.available_commands->0@.len() && (
            #[trigger] ctx.available_commands->0@[i])@ == name),
        ctx.sandboxed && ctx.available_commands is None ==> !available(name, ctx, host),
        !ctx.sandboxed ==> (running(name, ctx, host) <==> exists|i: int|
            0 <= i < host.processes@.len() && (#[trigger] host.processes@[i])@ == name),
        ctx.sandboxed ==> !running(name, ctx, host),
{
    lemma_held_text(host.commands@, name);
    lemma_held_text(host.processes@, name);
    if let Some(list) = ctx.available_commands {
        lemma_held_text(list@, name);
    }
}

proof fn lemma_held_text(v: Seq<String>, name: Seq<char>)
    ensures
        text::texts(v).contains(name) <==> exists|i: int|
            0 <= i < v.len() && (#[trigger] v[i])@ == name,
{
    let list = text::texts(v);
    if list.contains(name) {
        let i = choose|i: int| 0 <= i < list.len() && list[i] == name;
        assert(v[i]@ == name);
    }
    if exists|i: int| 0 <= i < v.len() && (#[trigger] v[i])@ == name {
        let i = choose|i: int| 0 <= i < v.len() && (#[trigger] v[i])@ == name;
        assert(list[i] == name);
    }
}

} // verus!

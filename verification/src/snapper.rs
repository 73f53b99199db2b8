//! What snapper, btrfs and systemd say about snapshots.

use vstd::prelude::*;

use crate::ctx::Ctx;
use crate::host::Host;
use crate::json;
use crate::json::Json;
use crate::paths;
use crate::runner::{CommandRunner, Exchange, Reply};
use crate::text;
use crate::text::concat2;

verus! {

broadcast use vstd::seq::group_seq_axioms;

pub struct SnapperConfig {
    pub name: String,
    pub subvolume: String,
}

pub open spec fn config_view(c: SnapperConfig) -> (Seq<char>, Seq<char>) {
    (c.name@, c.subvolume@)
}

pub open spec fn configs(v: Seq<SnapperConfig>) -> Seq<(Seq<char>, Seq<char>)> {
    Seq::new(v.len(), |i: int| config_view(v[i]))
}

/// Whether `new` is `old` and one more command, `argv`.
pub open spec fn asked(old: Seq<Exchange>, new: Seq<Exchange>, argv: Seq<Seq<char>>) -> bool {
    &&& new.len() == old.len() + 1
    &&& new.drop_last() == old
    &&& new.last().argv == argv
}

// -------------------------------------------------------------- list-configs

pub open spec fn list_configs_argv() -> Seq<Seq<char>> {
    seq!["snapper"@, "list-configs"@]
}

/// Whether a line only draws the rule between the head of a table and its
/// rows.
pub open spec fn separator(line: Seq<char>) -> bool {
    forall|i: int| 0 <= i < line.len() ==> (#[trigger] line[i]) == '-' || line[i] == '+'
}

fn is_separator(line: &str) -> (r: bool)
    ensures
        r == separator(line@),
{
    let v = text::chars_of(line);
    let mut i: usize = 0;
    while i < v.len()
        invariant
            i <= v.len(),
            v@ == line@,
            forall|k: int| 0 <= k < i ==> (#[trigger] v@[k]) == '-' || v@[k] == '+',
        decreases v.len() - i,
    {
        if v[i] != '-' && v[i] != '+' {
            assert(!(line@[i as int] == '-' || line@[i as int] == '+'));
            return false;
        }
        i += 1;
    }
    true
}

/// Whether the separator is among the first `n` lines.
pub open spec fn past_separator(lines: Seq<Seq<char>>, n: int) -> bool
    decreases n,
{
    n > 0 && (past_separator(lines, n - 1) || (text::trim(lines[n - 1]).len() > 0 && separator(
        text::trim(lines[n - 1]),
    )))
}

/// The rows of a `Config | Subvolume` table among the first `n` lines: a row
/// stands below the separator and has a bar; its columns are trimmed.
pub open spec fn config_rows(lines: Seq<Seq<char>>, n: int) -> Seq<(Seq<char>, Seq<char>)>
    decreases n,
{
    if n <= 0 {
        Seq::empty()
    } else {
        let before = config_rows(lines, n - 1);
        let line = text::trim(lines[n - 1]);
        if line.len() == 0 || !past_separator(lines, n - 1) {
            before
        } else {
            match text::halves(line, "|"@) {
                Some((name, subvolume)) => before.push((text::trim(name), text::trim(subvolume))),
                None => before,
            }
        }
    }
}

/// The configs that the output of `snapper list-configs` lists.
pub open spec fn configs_in(stdout: Seq<char>) -> Seq<(Seq<char>, Seq<char>)> {
    config_rows(text::lines(stdout), text::lines(stdout).len() as int)
}

pub fn parse_configs(stdout: &str) -> (r: Vec<SnapperConfig>)
    ensures
        configs(r@) == configs_in(stdout@),
{
    let list = text::split_lines(stdout);
    let ghost all = text::texts(list@);
    let mut out: Vec<SnapperConfig> = Vec::new();
    let mut seen = false;
    let mut i: usize = 0;
    assert(configs(out@) =~= Seq::empty());
    while i < list.len()
        invariant
            i <= list.len(),
            all == text::texts(list@),
            seen == past_separator(all, i as int),
            configs(out@) == config_rows(all, i as int),
        decreases list.len() - i,
    {
        let line = text::trimmed(list[i].as_str());
        assert(all[i as int] == list@[i as int]@);
        let ghost had = out@;
        if !line.as_str().is_empty() {
            if !seen {
                if is_separator(line.as_str()) {
                    seen = true;
                }
            } else if let Some((name, subvolume)) = text::cut_at(line.as_str(), "|") {
                let c = SnapperConfig {
                    name: text::trimmed(name.as_str()),
                    subvolume: text::trimmed(subvolume.as_str()),
                };
                out.push(c);
                assert(configs(out@) =~= configs(had).push(config_view(c)));
            }
        }
        i += 1;
    }
    out
}

/// What the reply to `snapper list-configs` comes to. A command that could
/// not be run is an error; whatever one did print is read as the table.
pub open spec fn configs_reply(reply: Reply) -> Result<Seq<(Seq<char>, Seq<char>)>, Seq<char>> {
    match reply {
        Ok(out) => Ok(configs_in(out.stdout)),
        Err(message) => Err("failed to run snapper list-configs: "@ + message),
    }
}

pub open spec fn configs_result(r: Result<Vec<SnapperConfig>, String>) -> Result<
    Seq<(Seq<char>, Seq<char>)>,
    Seq<char>,
> {
    match r {
        Ok(list) => Ok(configs(list@)),
        Err(message) => Err(message@),
    }
}

pub fn list_configs<R: CommandRunner>(runner: &mut R) -> (r: Result<Vec<SnapperConfig>, String>)
    ensures
        final(runner).prepared() == old(runner).prepared(),
        asked(old(runner).exchanges(), final(runner).exchanges(), list_configs_argv()),
        configs_result(r) == configs_reply(final(runner).exchanges().last().reply),
{
    let argv = text::list2("snapper", "list-configs");
    let reply = runner.run(&argv);
    assert(runner.exchanges().drop_last() =~= old(runner).exchanges());
    match reply {
        Ok(out) => Ok(parse_configs(out.stdout.as_str())),
        Err(message) => Err(concat2("failed to run snapper list-configs: ", message.as_str())),
    }
}

// ------------------------------------------------------------ list snapshots

#[derive(Debug, Clone, Copy, PartialEq, Eq, Structural)]
pub enum SnapType {
    Single,
    Pre,
    Post,
}

#[derive(Debug, PartialEq)]
pub struct Snapshot {
    pub number: u64,
    pub snap_type: SnapType,
    /// Only meaningful (Some) for a Post snapshot: the paired Pre snapshot's
    /// number.
    pub pre_number: Option<u64>,
    pub date: Option<String>,
    pub description: String,
}

/// A snapshot as a mathematical value.
pub struct SnapshotModel {
    pub number: u64,
    pub snap_type: SnapType,
    pub pre_number: Option<u64>,
    pub date: Option<Seq<char>>,
    pub description: Seq<char>,
}

impl View for Snapshot {
    type V = SnapshotModel;

    open spec fn view(&self) -> SnapshotModel {
        SnapshotModel {
            number: self.number,
            snap_type: self.snap_type,
            pre_number: self.pre_number,
            date: text::opt_text(self.date),
            description: self.description@,
        }
    }
}

pub open spec fn snapshots(v: Seq<Snapshot>) -> Seq<SnapshotModel> {
    Seq::new(v.len(), |i: int| v[i]@)
}

pub open spec fn list_argv(cfg: Seq<char>) -> Seq<Seq<char>> {
    seq!["snapper"@, "-c"@, cfg, "--jsonout"@, "list"@]
}

/// One entry of the list; none without a number.
pub open spec fn snapshot_in(entry: Json) -> Option<SnapshotModel> {
    match entry.whole_member("number"@) {
        None => None,
        Some(number) => Some(
            SnapshotModel {
                number,
                snap_type: match entry.text_member("type"@) {
                    Some(kind) => if kind == "pre"@ {
                        SnapType::Pre
                    } else if kind == "post"@ {
                        SnapType::Post
                    } else {
                        SnapType::Single
                    },
                    None => SnapType::Single,
                },
                pre_number: entry.whole_member("pre-number"@),
                date: entry.text_member("date"@),
                description: match entry.text_member("description"@) {
                    Some(d) => d,
                    None => Seq::empty(),
                },
            },
        ),
    }
}

/// The snapshots among the first `n` entries.
pub open spec fn snapshots_among(entries: Seq<Json>, n: int) -> Seq<SnapshotModel>
    decreases n,
{
    if n <= 0 {
        Seq::empty()
    } else {
        match snapshot_in(entries[n - 1]) {
            Some(s) => snapshots_among(entries, n - 1).push(s),
            None => snapshots_among(entries, n - 1),
        }
    }
}

/// The snapshots that a parsed list holds for `cfg`.
pub open spec fn snapshots_of(value: Json, cfg: Seq<char>) -> Option<Seq<SnapshotModel>> {
    match value.member(cfg) {
        Some(Json::List(entries)) => Some(snapshots_among(entries@, entries@.len() as int)),
        _ => None,
    }
}

fn snapshot_from(entry: &Json) -> (r: Option<Snapshot>)
    ensures
        match r {
            Some(s) => snapshot_in(*entry) == Some(s@),
            None => snapshot_in(*entry) is None,
        },
{
    match entry.get_u64("number") {
        None => None,
        Some(number) => {
            let snap_type = match entry.get_text("type") {
                Some(kind) => if text::same(kind.as_str(), "pre") {
                    SnapType::Pre
                } else if text::same(kind.as_str(), "post") {
                    SnapType::Post
                } else {
                    SnapType::Single
                },
                None => SnapType::Single,
            };
            let description = match entry.get_text("description") {
                Some(d) => d,
                None => String::new(),
            };
            Some(
                Snapshot {
                    number,
                    snap_type,
                    pre_number: entry.get_u64("pre-number"),
                    date: entry.get_text("date"),
                    description,
                },
            )
        },
    }
}

/// The snapshots of `cfg` in a parsed list.
pub fn snapshots_from(value: &Json, cfg: &str) -> (r: Option<Vec<Snapshot>>)
    ensures
        match r {
            Some(list) => snapshots_of(*value, cfg@) == Some(snapshots(list@)),
            None => snapshots_of(*value, cfg@) is None,
        },
{
    match value.get(cfg) {
        Some(Json::List(entries)) => {
            let mut out: Vec<Snapshot> = Vec::new();
            let mut i: usize = 0;
            assert(snapshots(out@) =~= Seq::empty());
            while i < entries.len()
                invariant
                    i <= entries.len(),
                    snapshots(out@) == snapshots_among(entries@, i as int),
                decreases entries.len() - i,
            {
                let ghost had = out@;
                if let Some(s) = snapshot_from(&entries[i]) {
                    out.push(s);
                    assert(snapshots(out@) =~= snapshots(had).push(s@));
                }
                i += 1;
            }
            Some(out)
        },
        _ => None,
    }
}

/// What the reply to the listing of `cfg` comes to. `value` is what the
/// output parses to.
pub open spec fn snapshots_parsed(value: Result<Json, String>, cfg: Seq<char>) -> Result<
    Seq<SnapshotModel>,
    Seq<char>,
> {
    match value {
        Err(cause) => Err(
            "failed to parse snapper JSON output for config "@ + cfg + ": "@ + cause@,
        ),
        Ok(value) => match snapshots_of(value, cfg) {
            Some(list) => Ok(list),
            None => Err("no snapshot array found for config "@ + cfg),
        },
    }
}

pub open spec fn snapshots_reply(reply: Reply, cfg: Seq<char>) -> Result<
    Seq<SnapshotModel>,
    Seq<char>,
> {
    match reply {
        Err(message) => Err(
            "failed to run snapper -c "@ + cfg + " --jsonout list: "@ + message,
        ),
        Ok(out) => snapshots_parsed(json::parsed(out.stdout), cfg),
    }
}

pub open spec fn snapshots_result(r: Result<Vec<Snapshot>, String>) -> Result<
    Seq<SnapshotModel>,
    Seq<char>,
> {
    match r {
        Ok(list) => Ok(snapshots(list@)),
        Err(message) => Err(message@),
    }
}

/// What a parse of the listing of `cfg` comes to. An entry without a number
/// is left out; an unknown type counts as single; a value without a list
/// under `cfg` is an error.
pub fn read_snapshots(value: Result<Json, String>, cfg: &str) -> (r: Result<Vec<Snapshot>, String>)
    ensures
        snapshots_result(r) == snapshots_parsed(value, cfg@),
{
    match value {
        Err(cause) => Err(
            text::concat4(
                "failed to parse snapper JSON output for config ",
                cfg,
                ": ",
                cause.as_str(),
            ),
        ),
        Ok(value) => match snapshots_from(&value, cfg) {
            Some(list) => Ok(list),
            None => Err(concat2("no snapshot array found for config ", cfg)),
        },
    }
}

pub fn list_snapshots<R: CommandRunner>(runner: &mut R, cfg: &str) -> (r: Result<
    Vec<Snapshot>,
    String,
>)
    ensures
        final(runner).prepared() == old(runner).prepared(),
        asked(old(runner).exchanges(), final(runner).exchanges(), list_argv(cfg@)),
        snapshots_result(r) == snapshots_reply(final(runner).exchanges().last().reply, cfg@),
{
    let argv = text::list5("snapper", "-c", cfg, "--jsonout", "list");
    let reply = runner.run(&argv);
    assert(runner.exchanges().drop_last() =~= old(runner).exchanges());
    match reply {
        Err(message) => Err(
            text::concat4(
                "failed to run snapper -c ",
                cfg,
                " --jsonout list: ",
                message.as_str(),
            ),
        ),
        Ok(out) => read_snapshots(json::parse(out.stdout.as_str()), cfg),
    }
}

// ------------------------------------------------------- protected snapshots

/// The first number in `s[from..]` that stands between `snapshots/` and
/// `/snapshot` and fits.
pub open spec fn snapshot_number_at(s: Seq<char>, from: int) -> Option<nat>
    decreases s.len() - from,
{
    if from < 0 || from > s.len() {
        None
    } else {
        match text::find(s, "snapshots/"@, from) {
            None => None,
            Some(k) => {
                let after = k + "snapshots/"@.len();
                let end = text::digits_end(s, after);
                let n = text::number(s.subrange(after, end), u64::MAX as nat);
                if end > after && text::at(s, "/snapshot"@, end) && n is Some {
                    n
                } else if after <= from || after > s.len() {
                    None
                } else {
                    snapshot_number_at(s, after)
                }
            },
        }
    }
}

pub open spec fn snapshot_number(s: Seq<char>) -> Option<nat> {
    snapshot_number_at(s, 0)
}

pub open spec fn opt_nat(o: Option<u64>) -> Option<nat> {
    match o {
        Some(n) => Some(n as nat),
        None => None,
    }
}

pub fn extract_snapshot_number(s: &str) -> (r: Option<u64>)
    ensures
        opt_nat(r) == snapshot_number(s@),
{
    proof {
        reveal_strlit("snapshots/");
    }
    let v = text::chars_of(s);
    let mark = text::chars_of("snapshots/");
    let tail = text::chars_of("/snapshot");
    let mut from: usize = 0;
    loop
        invariant
            v@ == s@,
            mark@ == "snapshots/"@,
            mark@.len() == 10,
            tail@ == "/snapshot"@,
            from <= v.len(),
            snapshot_number(s@) == snapshot_number_at(s@, from as int),
        decreases v.len() - from,
    {
        match text::find_text(&v, &mark, from) {
            None => {
                return None;
            },
            Some(k) => {
                let after: usize = k + mark.len();
                let end = text::find_digits_end(&v, after);
                if end > after && text::is_at(&v, &tail, end) {
                    if let Some(n) = text::parse_piece(&v, after, end) {
                        return Some(n);
                    }
                }
                from = after;
            },
        }
    }
}

/// The value of the first word of a kernel command line that has `subvol=`.
pub open spec fn subvol_value(words: Seq<Seq<char>>, from: int) -> Option<Seq<char>>
    decreases words.len() - from,
{
    if from < 0 || from >= words.len() {
        None
    } else {
        match text::halves(words[from], "subvol="@) {
            Some((_, value)) => Some(value),
            None => subvol_value(words, from + 1),
        }
    }
}

/// The snapshot that a kernel command line boots: the number in the value of
/// its first `subvol=`. An argument without `subvol=` never counts.
pub open spec fn booted_number(cmdline: Seq<char>) -> Option<nat> {
    match subvol_value(text::words(cmdline), 0) {
        Some(value) => snapshot_number(value),
        None => None,
    }
}

pub fn extract_snapshot_number_from_cmdline(cmdline: &str) -> (r: Option<u64>)
    ensures
        opt_nat(r) == booted_number(cmdline@),
{
    let list = text::split_words(cmdline);
    let ghost all = text::texts(list@);
    let mut i: usize = 0;
    while i < list.len()
        invariant
            i <= list.len(),
            all == text::texts(list@),
            all == text::words(cmdline@),
            subvol_value(all, 0) == subvol_value(all, i as int),
        decreases list.len() - i,
    {
        assert(all[i as int] == list@[i as int]@);
        if let Some((_, value)) = text::cut_at(list[i].as_str(), "subvol=") {
            return extract_snapshot_number(value.as_str());
        }
        i += 1;
    }
    None
}

pub open spec fn cmdline_path(ctx: &Ctx) -> Seq<char> {
    paths::joined(ctx.root@, "proc/cmdline"@)
}

/// The booted snapshot, where the kernel command line tells.
pub open spec fn booted(ctx: &Ctx, host: &Host) -> Option<nat> {
    match host.contents(cmdline_path(ctx)) {
        Some(cmdline) => booted_number(cmdline),
        None => None,
    }
}

pub fn booted_snapshot_from_cmdline(ctx: &Ctx, host: &Host) -> (r: Option<u64>)
    ensures
        opt_nat(r) == booted(ctx, host),
{
    let path = paths::join(ctx.root.as_str(), "proc/cmdline");
    match host.read(path.as_str()) {
        Some(cmdline) => extract_snapshot_number_from_cmdline(cmdline.as_str()),
        None => None,
    }
}

pub open spec fn get_default_argv() -> Seq<Seq<char>> {
    seq!["btrfs"@, "subvolume"@, "get-default"@, "/"@]
}

/// The default snapshot, where the command succeeded and names one.
pub open spec fn default_reply(reply: Reply) -> Option<nat> {
    match reply {
        Ok(out) => if out.success {
            snapshot_number(out.stdout)
        } else {
            None
        },
        Err(_) => None,
    }
}

pub fn default_snapshot_from_btrfs<R: CommandRunner>(runner: &mut R) -> (r: Option<u64>)
    ensures
        final(runner).prepared() == old(runner).prepared(),
        asked(old(runner).exchanges(), final(runner).exchanges(), get_default_argv()),
        opt_nat(r) == default_reply(final(runner).exchanges().last().reply),
{
    let argv = text::list4("btrfs", "subvolume", "get-default", "/");
    let reply = runner.run(&argv);
    assert(runner.exchanges().drop_last() =~= old(runner).exchanges());
    match reply {
        Ok(out) => if out.success {
            extract_snapshot_number(out.stdout.as_str())
        } else {
            None
        },
        Err(_) => None,
    }
}

/// The numbers that must never be offered for deletion, unless nothing is
/// known of the booted or the default snapshot.
pub open spec fn protected(booted: Option<nat>, default: Option<nat>) -> Option<Set<nat>> {
    match (booted, default) {
        (None, None) => None,
        (Some(b), None) => Some(set![b]),
        (None, Some(d)) => Some(set![d]),
        (Some(b), Some(d)) => Some(set![b, d]),
    }
}

/// The numbers in a list.
pub open spec fn numbers(v: Seq<u64>) -> Set<nat> {
    Set::new(|n: nat| exists|i: int| 0 <= i < v.len() && #[trigger] v[i] == n)
}

/// The union of the booted and the default snapshot. `None` only where
/// neither is known: then no snapshot may be offered for deletion at all.
pub fn protected_snapshot_numbers<R: CommandRunner>(
    ctx: &Ctx,
    host: &Host,
    runner: &mut R,
) -> (r: Option<Vec<u64>>)
    ensures
        final(runner).prepared() == old(runner).prepared(),
        asked(old(runner).exchanges(), final(runner).exchanges(), get_default_argv()),
        (match r {
            Some(list) => Some(numbers(list@)),
            None => None,
        }) == protected(
            booted(ctx, host),
            default_reply(final(runner).exchanges().last().reply),
        ),
        r is Some ==> r->Some_0@.no_duplicates(),
{
    let booted = booted_snapshot_from_cmdline(ctx, host);
    let default = default_snapshot_from_btrfs(runner);
    if booted.is_none() && default.is_none() {
        return None;
    }
    let mut out: Vec<u64> = Vec::new();
    if let Some(b) = booted {
        out.push(b);
    }
    if let Some(d) = default {
        if booted.is_none() || booted.unwrap() != d {
            out.push(d);
        }
    }
    proof {
        let want = protected(opt_nat(booted), opt_nat(default))->Some_0;
        assert forall|n: nat| numbers(out@).contains(n) <==> want.contains(n) by {
            if let Some(b) = booted {
                assert(out@[0] == b);
            }
            if let Some(d) = default {
                assert(out@[out@.len() - 1] == d);
            }
        }
        assert(numbers(out@) =~= want);
    }
    Some(out)
}

// -------------------------------------------------------------------- limine

#[derive(Debug, Clone, Copy, PartialEq, Eq, Structural)]
pub enum LimineState {
    Present { active: bool },
    Absent,
}

pub open spec fn is_enabled_argv() -> Seq<Seq<char>> {
    seq!["systemctl"@, "is-enabled"@, "limine-snapper-sync.service"@]
}

pub open spec fn is_active_argv() -> Seq<Seq<char>> {
    seq!["systemctl"@, "is-active"@, "limine-snapper-sync.service"@]
}

/// Whether the answer to `is-enabled` says that there is no such unit.
pub open spec fn no_unit(reply: Reply) -> bool {
    match reply {
        Ok(out) => text::trim(out.stdout) == "not-found"@,
        Err(_) => true,
    }
}

pub open spec fn active_reply(reply: Reply) -> bool {
    match reply {
        Ok(out) => text::trim(out.stdout) == "active"@,
        Err(_) => false,
    }
}

/// The state told by the commands of `log` from position `i` on.
pub open spec fn limine_state(log: Seq<Exchange>, i: int) -> LimineState {
    if no_unit(log[i].reply) {
        LimineState::Absent
    } else {
        LimineState::Present { active: active_reply(log[i + 1].reply) }
    }
}

/// How many commands it takes to tell.
pub open spec fn limine_steps(log: Seq<Exchange>, i: int) -> int {
    if no_unit(log[i].reply) {
        1
    } else {
        2
    }
}

/// Whether the commands of `log` from position `i` on are those that tell
/// the state: `is-active` is only asked of a unit that there is.
pub open spec fn limine_asked(log: Seq<Exchange>, i: int) -> bool {
    &&& i + limine_steps(log, i) <= log.len()
    &&& log[i].argv == is_enabled_argv()
    &&& !no_unit(log[i].reply) ==> log[i + 1].argv == is_active_argv()
}

pub fn limine_sync_state<R: CommandRunner>(runner: &mut R) -> (r: LimineState)
    ensures
        final(runner).prepared() == old(runner).prepared(),
        final(runner).exchanges().len() == old(runner).exchanges().len() + limine_steps(
            final(runner).exchanges(),
            old(runner).exchanges().len() as int,
        ),
        final(runner).exchanges().take(old(runner).exchanges().len() as int) == old(
            runner,
        ).exchanges(),
        limine_asked(final(runner).exchanges(), old(runner).exchanges().len() as int),
        r == limine_state(final(runner).exchanges(), old(runner).exchanges().len() as int),
{
    let ghost start = runner.exchanges();
    let argv = text::list3("systemctl", "is-enabled", "limine-snapper-sync.service");
    let enabled = runner.run(&argv);
    let ghost first = runner.exchanges();
    assert(first.take(start.len() as int) =~= start);
    match enabled {
        Err(_) => {
            return LimineState::Absent;
        },
        Ok(out) => {
            let state = text::trimmed(out.stdout.as_str());
            if text::same(state.as_str(), "not-found") {
                return LimineState::Absent;
            }
        },
    }
    let argv = text::list3("systemctl", "is-active", "limine-snapper-sync.service");
    let active = runner.run(&argv);
    assert(runner.exchanges().take(start.len() as int) =~= start);
    assert(runner.exchanges()[start.len() as int] == first[start.len() as int]);
    let active = match active {
        Ok(out) => {
            let state = text::trimmed(out.stdout.as_str());
            text::same(state.as_str(), "active")
        },
        Err(_) => false,
    };
    LimineState::Present { active }
}

// ------------------------------------------------------------------------ laws


/// The table of configs as it is printed.
pub open spec fn table_lines(
    head: Seq<char>,
    rule: Seq<char>,
    list: Seq<(Seq<char>, Seq<char>)>,
) -> Seq<Seq<char>> {
    seq![head, rule] + Seq::new(
        list.len(),
        |i: int| list[i].0 + seq![' ', '|', ' '] + list[i].1,
    )
}

/// The configs in a table are read back, each with its subvolume.
pub proof fn law_configs_are_read_back(
    head: Seq<char>,
    rule: Seq<char>,
    list: Seq<(Seq<char>, Seq<char>)>,
    n: int,
)
    requires
        0 <= n <= list.len(),
        !separator(text::trim(head)),
        rule.len() > 0,
        forall|i: int| 0 <= i < rule.len() ==> (#[trigger] rule[i]) == '-' || rule[i] == '+',
        forall|i: int|
            0 <= i < list.len() ==> {
                &&& text::one_word((#[trigger] list[i]).0)
                &&& text::one_word(list[i].1)
                &&& !list[i].0.contains('|')
            },
    ensures
        config_rows(table_lines(head, rule, list), n + 2) == list.take(n),
    decreases n,
{
    let lines = table_lines(head, rule, list);
    assert(lines[0] == head && lines[1] == rule);
    assert(text::bare(rule));
    text::lemma_trim_of_bare(rule);
    assert(!past_separator(lines, 1)) by {
        assert(!past_separator(lines, 0));
    }
    assert(past_separator(lines, 2));
    if n == 0 {
        assert(config_rows(lines, 0) =~= Seq::empty());
        assert(config_rows(lines, 1) =~= Seq::empty());
        assert(config_rows(lines, 2) =~= Seq::empty());
        assert(list.take(0) =~= Seq::empty());
    } else {
        law_configs_are_read_back(head, rule, list, n - 1);
        lemma_past_separator(lines, n + 1);
        let x = list[n - 1];
        let line = lines[n + 1];
        assert(line == x.0 + seq![' ', '|', ' '] + x.1);
        assert(!text::white(x.0[0]));
        assert(!text::white(x.1[x.1.len() - 1]));
        assert(line[0] == x.0[0]);
        assert(line.last() == x.1.last());
        assert(text::bare(line));
        text::lemma_trim_of_bare(line);
        reveal_strlit("|");
        assert("|"@ =~= seq!['|']);
        let a = x.0 + seq![' '];
        let b = seq![' '] + x.1;
        assert(line =~= a + seq!['|'] + b);
        assert(!a.contains('|')) by {
            assert forall|i: int| 0 <= i < a.len() implies a[i] != '|' by {
                if i < x.0.len() {
                    assert(a[i] == x.0[i]);
                    assert(x.0.contains(x.0[i]));
                }
            }
        }
        text::law_halves_at_the_first(a, '|', b);
        assert(text::bare(x.0) && text::bare(x.1));
        text::law_trim_takes_the_ends(Seq::empty(), x.0, seq![' ']);
        assert(Seq::empty() + x.0 + seq![' '] =~= a);
        text::law_trim_takes_the_ends(seq![' '], x.1, Seq::empty());
        assert(seq![' '] + x.1 + Seq::empty() =~= b);
        assert(config_rows(lines, n + 2) =~= list.take(n - 1).push(x));
        assert(list.take(n - 1).push(x) =~= list.take(n));
    }
}

proof fn lemma_past_separator(lines: Seq<Seq<char>>, n: int)
    requires
        n >= 2,
        past_separator(lines, 2),
    ensures
        past_separator(lines, n),
    decreases n,
{
    if n > 2 {
        lemma_past_separator(lines, n - 1);
    }
}

/// The number between `snapshots/` and `/snapshot` is that of the snapshot.
pub proof fn law_snapshot_numbers_are_read_back(a: Seq<char>, n: nat, b: Seq<char>)
    requires
        n <= u64::MAX,
        ({
            let s = a + "snapshots/"@ + text::decimal(n) + "/snapshot"@ + b;
            forall|j: int| 0 <= j < a.len() ==> !text::at(s, "snapshots/"@, j)
        }),
    ensures
        snapshot_number(a + "snapshots/"@ + text::decimal(n) + "/snapshot"@ + b) == Some(n),
{
    let p = "snapshots/"@;
    let d = text::decimal(n);
    let q = "/snapshot"@;
    let s = a + p + d + q + b;
    reveal_strlit("snapshots/");
    reveal_strlit("/snapshot");
    text::lemma_decimal(n);
    let k = a.len() as int;
    assert(s.subrange(k, k + p.len()) =~= p);
    text::lemma_find_is(s, p, 0, k);
    let after = k + p.len();
    let end = after + d.len();
    assert(s.subrange(after, end) =~= d);
    assert forall|j: int| after <= j < end implies text::digit(s[j]) by {
        assert(s[j] == d[j - after]);
    }
    assert(s[end] == '/');
    text::lemma_digits_end_is(s, after, end);
    assert(s.subrange(end, end + q.len()) =~= q);
    text::lemma_number_of_decimal(n, u64::MAX as nat);
}

/// The booted and the default snapshot are spared, and no others; where
/// neither is known, nothing is known.
pub proof fn law_booted_and_default_are_spared(booted: Option<nat>, default: Option<nat>, n: nat)
    ensures
        protected(booted, default) is None <==> booted is None && default is None,
        protected(booted, default) is Some ==> (protected(booted, default)->0.contains(n)
            <==> booted == Some(n) || default == Some(n)),
{
}

/// The sync service is absent where systemd knows no such unit or cannot be
/// asked, and active where it says so.
pub proof fn law_the_sync_service_is_as_told(log: Seq<Exchange>, i: int)
    requires
        log[i].reply is Ok,
    ensures
        text::trim(log[i].reply->Ok_0.stdout) == "not-found"@ ==> limine_state(log, i)
            == LimineState::Absent,
        text::trim(log[i].reply->Ok_0.stdout) != "not-found"@ && log[i + 1].reply is Ok ==> (
        limine_state(log, i) == LimineState::Present {
            active: text::trim(log[i + 1].reply->Ok_0.stdout) == "active"@,
        }),
        text::trim(log[i].reply->Ok_0.stdout) != "not-found"@ && log[i + 1].reply is Err ==> (
        limine_state(log, i) == LimineState::Present { active: false }),
{
}

/// An entry of the list is a snapshot by its number, and the first or second
/// of a pair where its type says so.
pub proof fn law_entries_are_snapshots(entry: Json)
    ensures
        ({
            let s = snapshot_in(entry);
            let kind = entry.text_member("type"@);
            &&& s is Some <==> entry.whole_member("number"@) is Some
            &&& s is Some ==> {
                &&& Some(s->0.number) == entry.whole_member("number"@)
                &&& s->0.snap_type == SnapType::Pre <==> kind == Some("pre"@)
                &&& s->0.snap_type == SnapType::Post <==> kind == Some("post"@)
                &&& s->0.pre_number == entry.whole_member("pre-number"@)
                &&& s->0.date == entry.text_member("date"@)
                &&& entry.text_member("description"@) is Some ==> Some(s->0.description)
                    == entry.text_member("description"@)
                &&& entry.text_member("description"@) is None ==> s->0.description.len() == 0
            }
        }),
{
    reveal_strlit("pre");
    reveal_strlit("post");
    assert("pre"@.len() == 3 && "post"@.len() == 4);
}

/// Every entry with a number is listed.
pub proof fn law_every_snapshot_is_listed(entries: Seq<Json>, n: int, i: int)
    requires
        0 <= i < n <= entries.len(),
        snapshot_in(entries[i]) is Some,
    ensures
        snapshots_among(entries, n).contains(snapshot_in(entries[i])->0),
    decreases n,
{
    let x = snapshot_in(entries[i])->0;
    let before = snapshots_among(entries, n - 1);
    let now = snapshots_among(entries, n);
    if i < n - 1 {
        law_every_snapshot_is_listed(entries, n - 1, i);
        let k = choose|k: int| 0 <= k < before.len() && before[k] == x;
        assert(now[k] == x);
    } else {
        assert(now[before.len() as int] == x);
    }
}

/// What is asked of snapper, btrfs and systemd: only what tells, nothing that
/// changes anything.
pub proof fn law_only_what_tells_is_asked(cfg: Seq<char>)
    ensures
        list_configs_argv() == seq!["snapper"@].push("list-configs"@),
        list_argv(cfg) == seq!["snapper"@].push("-c"@).push(cfg).push("--jsonout"@).push("list"@),
        get_default_argv() == seq!["btrfs"@].push("subvolume"@).push("get-default"@).push("/"@),
        is_enabled_argv() == seq!["systemctl"@].push("is-enabled"@).push(
            "limine-snapper-sync.service"@,
        ),
        is_active_argv() == seq!["systemctl"@].push("is-active"@).push(
            "limine-snapper-sync.service"@,
        ),
{
    assert(list_configs_argv() =~= seq!["snapper"@].push("list-configs"@));
    assert(list_argv(cfg) =~= seq!["snapper"@].push("-c"@).push(cfg).push("--jsonout"@).push(
        "list"@,
    ));
    assert(get_default_argv() =~= seq!["btrfs"@].push("subvolume"@).push("get-default"@).push(
        "/"@,
    ));
    assert(is_enabled_argv() =~= seq!["systemctl"@].push("is-enabled"@).push(
        "limine-snapper-sync.service"@,
    ));
    assert(is_active_argv() =~= seq!["systemctl"@].push("is-active"@).push(
        "limine-snapper-sync.service"@,
    ));
}

} // verus!

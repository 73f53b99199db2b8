//! `status`: how the machine is doing. Rates and averages are measured as
//! fractions; they come here as they are shown.

use vstd::prelude::*;

use crate::analyze::disk::DiskTotals;
use crate::commands::analyze::{run_of, totals_line, totals_text};
use crate::ctx::Ctx;
use crate::output::{human, humanize_bytes};
use crate::ratio::{percent_digits, percentage, rounded_times, whole_percent};
use crate::runner::{CommandRunner, Reply};
use crate::sys::{
    busy_gain, cores, counters, cpu_ticks, disk_bytes, disk_counters, is_core, memory_bytes,
    memory_from, net_bytes, net_counters, rates, rates_of, shown_rates, ticks, total_gain, Counter,
    Ticks,
};
use crate::text;
use crate::text::{concat3, concat5};

verus! {

broadcast use vstd::seq::group_seq_axioms;

/// How busy a core is: a percentage with one decimal place, and its bar.
#[derive(Debug, Clone)]
pub struct Core {
    pub percent: String,
    pub bar: usize,
}

/// Bytes per second in and out of a device or an interface.
#[derive(Debug, Clone)]
pub struct Rate {
    pub name: String,
    pub inward: u64,
    pub outward: u64,
}

#[derive(Debug)]
pub struct StatusReport {
    pub health_score: u8,
    pub health_reasons: Vec<String>,
    /// With one decimal place.
    pub cpu_total: String,
    pub cores: Vec<Core>,
    /// Over one, five and fifteen minutes, with two decimal places.
    pub load: (String, String, String),
    pub mem_total: u64,
    pub mem_available: u64,
    pub swap_total: u64,
    pub swap_free: u64,
    /// Pressure over 10, 60 and 300 seconds as shown, where it is known.
    pub psi_cpu: Option<String>,
    pub psi_memory: Option<String>,
    pub psi_io: Option<String>,
    pub disk_totals: DiskTotals,
    /// Bytes read and written.
    pub disk_rates: Vec<Rate>,
    /// Bytes received and sent.
    pub net_rates: Vec<Rate>,
    /// The hottest sensor, with its whole degrees.
    pub hottest: Option<(String, String)>,
    /// Charge in percent, and whether it goes up or down.
    pub battery: Option<(u64, String)>,
    pub kernel: String,
    pub scx: Option<String>,
    pub failed_units: Option<usize>,
}

/// Asks systemd which units have failed, a line each.
pub open spec fn failed_argv() -> Seq<Seq<char>> {
    seq!["systemctl"@, "--failed"@, "--no-legend"@, "--plain"@]
}

/// How many of the first `n` lines say something.
pub open spec fn said(lines: Seq<Seq<char>>, n: int) -> nat
    decreases n,
{
    if n <= 0 {
        0
    } else if text::trim(lines[n - 1]).len() > 0 {
        said(lines, n - 1) + 1
    } else {
        said(lines, n - 1)
    }
}

/// How many units have failed, where systemd could be asked.
pub open spec fn failed_units(reply: Reply) -> Option<nat> {
    match reply {
        Ok(out) => Some(said(text::lines(out.stdout), text::lines(out.stdout).len() as int)),
        Err(_) => None,
    }
}

/// The number of failed units. A sandbox runs nothing for real, and asks
/// nothing.
pub fn fetch_failed_units<R: CommandRunner>(ctx: &Ctx, runner: &mut R) -> (r: Option<usize>)
    ensures
        final(runner).prepared() == old(runner).prepared(),
        ctx.sandboxed ==> r is None && final(runner).exchanges() == old(runner).exchanges(),
        !ctx.sandboxed ==> {
            &&& final(runner).exchanges().len() == old(runner).exchanges().len() + 1
            &&& final(runner).exchanges().drop_last() == old(runner).exchanges()
            &&& final(runner).exchanges().last().argv == failed_argv()
            &&& match r {
                Some(n) => failed_units(final(runner).exchanges().last().reply) == Some(n as nat),
                None => failed_units(final(runner).exchanges().last().reply) is None,
            }
        },
{
    if ctx.sandboxed {
        return None;
    }
    let argv = text::list4("systemctl", "--failed", "--no-legend", "--plain");
    assert(text::texts(argv@) =~= failed_argv());
    let answer = runner.run(&argv);
    assert(runner.exchanges().drop_last() =~= old(runner).exchanges());
    match answer {
        Ok(out) => {
            let lines = text::split_lines(out.stdout.as_str());
            let ghost all = text::lines(out.stdout@);
            let mut n: usize = 0;
            let mut i: usize = 0;
            while i < lines.len()
                invariant
                    n <= i <= lines.len(),
                    all == text::texts(lines@),
                    n == said(all, i as int),
                decreases lines.len() - i,
            {
                assert(all[i as int] == lines@[i as int]@);
                let line = text::trimmed(lines[i].as_str());
                if !line.as_str().is_empty() {
                    n += 1;
                }
                i += 1;
            }
            assert(all.len() == lines.len());
            Some(n)
        },
        Err(_) => None,
    }
}

// ---------------------------------------------------------------------------- report

/// What needs a second sample to turn into a rate.
#[derive(Debug)]
pub struct Samples {
    pub cpu: Vec<Ticks>,
    pub disk: Vec<Counter>,
    pub net: Vec<Counter>,
}

/// A sample of the counters, from the text of `/proc/stat`,
/// `/proc/diskstats` and `/proc/net/dev`.
pub fn take_samples(stat: &str, diskstats: &str, net_dev: &str) -> (r: Samples)
    ensures
        r.cpu@ == ticks(text::lines(stat@), text::lines(stat@).len() as int),
        counters(r.disk@) == disk_counters(
            text::lines(diskstats@),
            text::lines(diskstats@).len() as int,
        ),
        counters(r.net@) == net_counters(
            text::lines(net_dev@),
            text::lines(net_dev@).len() as int,
        ),
{
    Samples { cpu: cpu_ticks(stat), disk: disk_bytes(diskstats), net: net_bytes(net_dev) }
}

/// What one look tells, as it is shown.
#[derive(Debug)]
pub struct Gauges {
    pub health_score: u8,
    pub health_reasons: Vec<String>,
    pub load: (String, String, String),
    pub psi_cpu: Option<String>,
    pub psi_memory: Option<String>,
    pub psi_io: Option<String>,
    pub hottest: Option<(String, String)>,
    pub battery: Option<(u64, String)>,
    pub kernel: String,
    pub scx: Option<String>,
}

/// Whether a report shows what the processors did between two samples: all
/// of them together first, and then each.
pub open spec fn shows_processors(r: StatusReport, before: Seq<Ticks>, after: Seq<Ticks>) -> bool {
    let n: int = if before.len() < after.len() {
        before.len() as int
    } else {
        after.len() as int
    };
    &&& r.cpu_total@ == (if n == 0 {
        "0.0"@
    } else {
        percent_digits(busy_gain(before[0], after[0]), total_gain(before[0], after[0]))
    })
    &&& r.cores@.len() == (if n == 0 {
        0
    } else {
        n - 1
    })
    &&& forall|i: int|
        0 <= i < r.cores@.len() ==> is_core(#[trigger] r.cores@[i], before[i + 1], after[i + 1])
}

/// Whether a report passes on what one look told.
pub open spec fn shows_gauges(r: StatusReport, g: Gauges) -> bool {
    &&& r.health_score == g.health_score
    &&& r.health_reasons == g.health_reasons
    &&& r.load == g.load
    &&& r.psi_cpu == g.psi_cpu
    &&& r.psi_memory == g.psi_memory
    &&& r.psi_io == g.psi_io
    &&& r.hottest == g.hottest
    &&& r.battery == g.battery
    &&& r.kernel == g.kernel
    &&& r.scx == g.scx
}

/// The report on two samples that were taken `millis` apart.
pub fn build_report(
    before: &Samples,
    after: &Samples,
    millis: u64,
    meminfo: &str,
    disk_totals: DiskTotals,
    gauges: Gauges,
    failed_units: Option<usize>,
) -> (r: StatusReport)
    requires
        millis > 0,
    ensures
        shows_processors(r, before.cpu@, after.cpu@),
        shows_gauges(r, gauges),
        r.mem_total == memory_from(text::lines(meminfo@), "MemTotal"@, 0),
        r.mem_available == memory_from(text::lines(meminfo@), "MemAvailable"@, 0),
        r.swap_total == memory_from(text::lines(meminfo@), "SwapTotal"@, 0),
        r.swap_free == memory_from(text::lines(meminfo@), "SwapFree"@, 0),
        r.disk_totals == disk_totals,
        shown_rates(r.disk_rates@) == rates_of(
            counters(before.disk@),
            counters(after.disk@),
            after.disk@.len() as int,
            millis,
        ),
        shown_rates(r.net_rates@) == rates_of(
            counters(before.net@),
            counters(after.net@),
            after.net@.len() as int,
            millis,
        ),
        r.failed_units == failed_units,
{
    let mut each = cores(&before.cpu, &after.cpu);
    let ghost all = each@;
    let cpu_total = if each.len() == 0 {
        "0.0".to_owned()
    } else {
        assert(is_core(all[0], before.cpu@[0], after.cpu@[0]));
        each.remove(0).percent
    };
    assert forall|i: int| 0 <= i < each@.len() implies is_core(
        #[trigger] each@[i],
        before.cpu@[i + 1],
        after.cpu@[i + 1],
    ) by {
        assert(each@[i] == all[i + 1]);
    }
    StatusReport {
        health_score: gauges.health_score,
        health_reasons: gauges.health_reasons,
        cpu_total,
        cores: each,
        load: gauges.load,
        mem_total: memory_bytes(meminfo, "MemTotal"),
        mem_available: memory_bytes(meminfo, "MemAvailable"),
        swap_total: memory_bytes(meminfo, "SwapTotal"),
        swap_free: memory_bytes(meminfo, "SwapFree"),
        psi_cpu: gauges.psi_cpu,
        psi_memory: gauges.psi_memory,
        psi_io: gauges.psi_io,
        disk_totals,
        disk_rates: rates(&before.disk, &after.disk, millis),
        net_rates: rates(&before.net, &after.net, millis),
        hottest: gauges.hottest,
        battery: gauges.battery,
        kernel: gauges.kernel,
        scx: gauges.scx,
        failed_units,
    }
}

// ---------------------------------------------------------------------------- health

pub open spec fn reason_lines(list: Seq<Seq<char>>, n: int) -> Seq<char>
    decreases n,
{
    if n <= 0 {
        Seq::empty()
    } else {
        reason_lines(list, n - 1) + ("\n  - "@ + list[n - 1])
    }
}

pub open spec fn health_text(score: u8, reasons: Seq<Seq<char>>) -> Seq<char> {
    "Health: "@ + text::decimal(score as nat) + "/100"@ + (if reasons.len() == 0 {
        " (all good)"@
    } else {
        reason_lines(reasons, reasons.len() as int)
    })
}

fn health_of(score: u8, reasons: &Vec<String>) -> (r: String)
    ensures
        r@ == health_text(score, text::texts(reasons@)),
{
    let ghost all = text::texts(reasons@);
    let digits = text::decimal_text(score as u64);
    let mut out = concat3("Health: ", digits.as_str(), "/100");
    assert(all.len() == reasons.len());
    if reasons.len() == 0 {
        out.append(" (all good)");
        return out;
    }
    let ghost head = out@;
    let mut i: usize = 0;
    assert(out@ =~= head + reason_lines(all, 0));
    while i < reasons.len()
        invariant
            i <= reasons.len(),
            all == text::texts(reasons@),
            out@ == head + reason_lines(all, i as int),
        decreases reasons.len() - i,
    {
        assert(all[i as int] == reasons@[i as int]@);
        out.append("\n  - ");
        out.append(reasons[i].as_str());
        assert(out@ =~= head + reason_lines(all, i + 1));
        i += 1;
    }
    out
}

// ------------------------------------------------------------------------------ cores

/// The text with spaces before it up to a width.
pub open spec fn right(s: Seq<char>, width: nat) -> Seq<char> {
    if s.len() >= width {
        s
    } else {
        run_of(' ', (width - s.len()) as nat) + s
    }
}

fn right_of(s: &str, width: usize) -> (r: String)
    ensures
        r@ == right(s@, width as nat),
{
    let n = text::chars_of(s).len();
    let mut out = String::new();
    let mut i: usize = n;
    while i < width
        invariant
            n <= i,
            i <= width || i == n,
            out@ == run_of(' ', (i - n) as nat),
        decreases width - i,
    {
        out.push(' ');
        assert(out@ =~= run_of(' ', (i + 1 - n) as nat));
        i += 1;
    }
    out.append(s);
    assert(out@ =~= right(s@, width as nat));
    out
}

/// The line of core `i`.
pub open spec fn core_text(i: nat, core: Core) -> Seq<char> {
    let number = text::decimal(i);
    "\n  core"@ + (if number.len() < 2 {
        number + " "@
    } else {
        number
    }) + " "@ + right(core.percent@, 5) + "%  "@ + run_of('#', core.bar as nat)
}

pub open spec fn cores_text(list: Seq<Core>, n: int) -> Seq<char>
    decreases n,
{
    if n <= 0 {
        Seq::empty()
    } else {
        cores_text(list, n - 1) + core_text((n - 1) as nat, list[n - 1])
    }
}

fn cores_of(list: &Vec<Core>) -> (r: String)
    ensures
        r@ == cores_text(list@, list@.len() as int),
{
    let mut out = String::new();
    let mut i: usize = 0;
    while i < list.len()
        invariant
            i <= list.len(),
            out@ == cores_text(list@, i as int),
        decreases list.len() - i,
    {
        let ghost had = out@;
        let number = text::decimal_text(i as u64);
        let percent = right_of(list[i].percent.as_str(), 5);
        out.append("\n  core");
        out.append(number.as_str());
        if text::chars_of(number.as_str()).len() < 2 {
            out.append(" ");
        }
        out.append(" ");
        out.append(percent.as_str());
        out.append("%  ");
        let ghost before_bar = out@;
        let mut k: usize = 0;
        assert(out@ =~= before_bar + run_of('#', 0));
        while k < list[i].bar
            invariant
                i < list.len(),
                k <= list@[i as int].bar,
                out@ == before_bar + run_of('#', k as nat),
            decreases list@[i as int].bar - k,
        {
            out.push('#');
            assert(out@ =~= before_bar + run_of('#', (k + 1) as nat));
            k += 1;
        }
        assert(out@ =~= had + core_text(i as nat, list@[i as int]));
        i += 1;
    }
    out
}

// ------------------------------------------------------------------------------ rates

/// One line for each of the first `n`, with what goes in and out.
pub open spec fn rate_lines(list: Seq<Rate>, n: int, inward: Seq<char>, outward: Seq<char>) -> Seq<
    char,
>
    decreases n,
{
    if n <= 0 {
        Seq::empty()
    } else {
        let r = list[n - 1];
        rate_lines(list, n - 1, inward, outward) + ("\n  "@ + r.name@ + ": "@ + inward + " "@
            + human(r.inward as nat) + "/s, "@ + outward + " "@ + human(r.outward as nat)
            + "/s"@)
    }
}

fn rate_lines_of(list: &Vec<Rate>, inward: &str, outward: &str) -> (r: String)
    ensures
        r@ == rate_lines(list@, list@.len() as int, inward@, outward@),
{
    let mut out = String::new();
    let mut i: usize = 0;
    while i < list.len()
        invariant
            i <= list.len(),
            out@ == rate_lines(list@, i as int, inward@, outward@),
        decreases list.len() - i,
    {
        let a = humanize_bytes(list[i].inward);
        let b = humanize_bytes(list[i].outward);
        out.append("\n  ");
        out.append(list[i].name.as_str());
        out.append(": ");
        out.append(inward);
        out.append(" ");
        out.append(a.as_str());
        out.append("/s, ");
        out.append(outward);
        out.append(" ");
        out.append(b.as_str());
        out.append("/s");
        assert(out@ =~= rate_lines(list@, i + 1, inward@, outward@));
        i += 1;
    }
    out
}

// ----------------------------------------------------------------------------- memory

pub open spec fn less(a: u64, b: u64) -> nat {
    if a < b {
        0
    } else {
        (a - b) as nat
    }
}

/// What is in use, of memory and of swap space.
pub open spec fn memory_text(r: &StatusReport) -> Seq<char> {
    "\nMemory: "@ + human(less(r.mem_total, r.mem_available)) + " used of "@ + human(
        r.mem_total as nat,
    ) + " ("@ + text::decimal(
        rounded_times(percentage(r.mem_available as nat, r.mem_total as nat), 1),
    ) + "% available)"@ + "\nSwap: "@ + human(less(r.swap_total, r.swap_free)) + " used of "@
        + human(r.swap_total as nat)
}

fn memory_of(r: &StatusReport) -> (out: String)
    ensures
        out@ == memory_text(r),
{
    let used = humanize_bytes(r.mem_total.saturating_sub(r.mem_available));
    let total = humanize_bytes(r.mem_total);
    let share = whole_percent(r.mem_available, r.mem_total);
    let swapped = humanize_bytes(r.swap_total.saturating_sub(r.swap_free));
    let swap = humanize_bytes(r.swap_total);
    let mut out = concat5("\nMemory: ", used.as_str(), " used of ", total.as_str(), " (");
    out.append(share.as_str());
    out.append("% available)");
    out.append("\nSwap: ");
    out.append(swapped.as_str());
    out.append(" used of ");
    out.append(swap.as_str());
    out
}

pub open spec fn known(o: Option<String>) -> Seq<char> {
    match o {
        Some(s) => s@,
        None => "n/a"@,
    }
}

fn known_of(o: &Option<String>) -> (r: &str)
    ensures
        r@ == known(*o),
{
    match o {
        Some(s) => s.as_str(),
        None => "n/a",
    }
}

// --------------------------------------------------------------------------- the rest

pub open spec fn sensor_text(hottest: Option<(String, String)>) -> Seq<char> {
    match hottest {
        Some(s) => " hottest "@ + s.0@ + " "@ + s.1@ + "°C"@,
        None => " (none found)"@,
    }
}

pub open spec fn battery_text(battery: Option<(u64, String)>) -> Seq<char> {
    match battery {
        Some(b) => "\nBattery: "@ + text::decimal(b.0 as nat) + "% ("@ + b.1@ + ")"@,
        None => ""@,
    }
}

pub open spec fn scx_text(scx: Option<String>) -> Seq<char> {
    match scx {
        Some(s) => " | scx: "@ + s@,
        None => " | scx: unsupported"@,
    }
}

pub open spec fn units_text(failed: Option<usize>) -> Seq<char> {
    match failed {
        Some(n) => if n == 0 {
            "\nFailed units: none"@
        } else {
            "\nFailed units: "@ + text::decimal(n as nat)
        },
        None => "\nFailed units: unknown"@,
    }
}

fn tail_of(r: &StatusReport) -> (out: String)
    ensures
        out@ == sensor_text(r.hottest) + battery_text(r.battery) + "\n\nKernel: "@ + r.kernel@
            + scx_text(r.scx) + units_text(r.failed_units),
{
    let mut out = match &r.hottest {
        Some(s) => concat5(" hottest ", s.0.as_str(), " ", s.1.as_str(), "°C"),
        None => " (none found)".to_owned(),
    };
    let battery = match &r.battery {
        Some(b) => {
            let charge = text::decimal_text(b.0);
            concat5("\nBattery: ", charge.as_str(), "% (", b.1.as_str(), ")")
        },
        None => "".to_owned(),
    };
    let scx = match &r.scx {
        Some(s) => text::concat2(" | scx: ", s.as_str()),
        None => " | scx: unsupported".to_owned(),
    };
    let units = match r.failed_units {
        Some(n) => if n == 0 {
            "\nFailed units: none".to_owned()
        } else {
            let count = text::decimal_text(n as u64);
            text::concat2("\nFailed units: ", count.as_str())
        },
        None => "\nFailed units: unknown".to_owned(),
    };
    out.append(battery.as_str());
    out.append("\n\nKernel: ");
    out.append(r.kernel.as_str());
    out.append(scx.as_str());
    out.append(units.as_str());
    out
}

pub open spec fn status_text(r: &StatusReport) -> Seq<char> {
    health_text(r.health_score, text::texts(r.health_reasons@)) + "\n\nCPU: "@ + r.cpu_total@
        + "% total"@ + cores_text(r.cores@, r.cores@.len() as int) + "\n\nLoad: "@ + r.load.0@
        + " "@ + r.load.1@ + " "@ + r.load.2@ + memory_text(r)
        + "\nPSI (avg10/60/300): cpu "@ + known(r.psi_cpu) + " | mem "@ + known(r.psi_memory)
        + " | io "@ + known(r.psi_io) + "\n\n"@ + totals_text(&r.disk_totals) + (
    if r.disk_rates@.len() == 0 {
        "\n  IO: (no devices)"@
    } else {
        rate_lines(r.disk_rates@, r.disk_rates@.len() as int, "read"@, "write"@)
    }) + "\n\nNetwork:"@ + (if r.net_rates@.len() == 0 {
        " (no interfaces)"@
    } else {
        rate_lines(r.net_rates@, r.net_rates@.len() as int, "rx"@, "tx"@)
    }) + "\n\nTemps:"@ + (sensor_text(r.hottest) + battery_text(r.battery) + "\n\nKernel: "@
        + r.kernel@ + scx_text(r.scx) + units_text(r.failed_units))
}

/// What the command has to say.
#[derive(Debug)]
pub struct StatusOutput {
    pub rendered: String,
}

/// What is said of the state of the machine.
pub fn report(r: &StatusReport) -> (out: StatusOutput)
    ensures
        out.rendered@ == status_text(r),
{
    StatusOutput { rendered: render_human(r) }
}

/// The report for people.
pub fn render_human(r: &StatusReport) -> (out: String)
    ensures
        out@ == status_text(r),
{
    let health = health_of(r.health_score, &r.health_reasons);
    let cores = cores_of(&r.cores);
    let memory = memory_of(r);
    let disk = totals_line(&r.disk_totals);
    let devices = if r.disk_rates.len() == 0 {
        "\n  IO: (no devices)".to_owned()
    } else {
        rate_lines_of(&r.disk_rates, "read", "write")
    };
    let network = if r.net_rates.len() == 0 {
        " (no interfaces)".to_owned()
    } else {
        rate_lines_of(&r.net_rates, "rx", "tx")
    };
    let tail = tail_of(r);
    let mut out = health;
    out.append("\n\nCPU: ");
    out.append(r.cpu_total.as_str());
    out.append("% total");
    out.append(cores.as_str());
    out.append("\n\nLoad: ");
    out.append(r.load.0.as_str());
    out.append(" ");
    out.append(r.load.1.as_str());
    out.append(" ");
    out.append(r.load.2.as_str());
    out.append(memory.as_str());
    out.append("\nPSI (avg10/60/300): cpu ");
    out.append(known_of(&r.psi_cpu));
    out.append(" | mem ");
    out.append(known_of(&r.psi_memory));
    out.append(" | io ");
    out.append(known_of(&r.psi_io));
    out.append("\n\n");
    out.append(disk.as_str());
    out.append(devices.as_str());
    out.append("\n\nNetwork:");
    out.append(network.as_str());
    out.append("\n\nTemps:");
    out.append(tail.as_str());
    out
}

// ------------------------------------------------------------------------ laws

/// The report tells the memory in use, which together with what is available
/// is all there is, and the swap space in use, which together with what is
/// free is all of that.
pub proof fn law_used_and_available_memory_add_up(r: &StatusReport, used: u64, swapped: u64)
    requires
        used + r.mem_available == r.mem_total,
        swapped + r.swap_free == r.swap_total,
    ensures
        text::contains(
            status_text(r),
            "\nMemory: "@ + human(used as nat) + " used of "@ + human(r.mem_total as nat) + " ("@,
        ),
        text::contains(
            status_text(r),
            "% available)\nSwap: "@ + human(swapped as nat) + " used of "@ + human(
                r.swap_total as nat,
            ),
        ),
{
    let line = "\nMemory: "@ + human(used as nat) + " used of "@ + human(r.mem_total as nat)
        + " ("@;
    let swap = "% available)\nSwap: "@ + human(swapped as nat) + " used of "@ + human(
        r.swap_total as nat,
    );
    assert(text::contains(memory_text(r), line)) by {
        text::lemma_contains_on(line);
    }
    assert(text::contains(memory_text(r), swap)) by {
        let lead = line + text::decimal(
            rounded_times(percentage(r.mem_available as nat, r.mem_total as nat), 1),
        );
        reveal_strlit("% available)");
        reveal_strlit("\nSwap: ");
        reveal_strlit("% available)\nSwap: ");
        assert("% available)\nSwap: "@ =~= "% available)"@ + "\nSwap: "@);
        text::lemma_regroup(
            lead,
            "% available)"@,
            "\nSwap: "@,
            human(swapped as nat),
            " used of "@,
            human(r.swap_total as nat),
        );
        text::lemma_contains_on(swap);
        text::lemma_contains_more(lead, swap, swap);
    }
    lemma_report_holds_memory(r, line);
    lemma_report_holds_memory(r, swap);
}

/// What is said of memory is in the report.
proof fn lemma_report_holds_memory(r: &StatusReport, p: Seq<char>)
    requires
        text::contains(memory_text(r), p),
    ensures
        text::contains(status_text(r), p),
{
    text::lemma_contains_on(p);
    let head = health_text(r.health_score, text::texts(r.health_reasons@)) + "\n\nCPU: "@
        + r.cpu_total@ + "% total"@ + cores_text(r.cores@, r.cores@.len() as int)
        + "\n\nLoad: "@ + r.load.0@ + " "@ + r.load.1@ + " "@ + r.load.2@;
    text::lemma_contains_more(head, memory_text(r), p);
}

/// The report up to the load.
spec fn report_to_load(r: &StatusReport) -> Seq<char> {
    health_text(r.health_score, text::texts(r.health_reasons@)) + "\n\nCPU: "@ + r.cpu_total@
        + "% total"@ + cores_text(r.cores@, r.cores@.len() as int)
}

/// The report up to the pressure.
spec fn report_to_pressure(r: &StatusReport) -> Seq<char> {
    report_to_load(r) + "\n\nLoad: "@ + r.load.0@ + " "@ + r.load.1@ + " "@ + r.load.2@
        + memory_text(r)
}

/// The report up to the filesystem.
spec fn report_to_disk(r: &StatusReport) -> Seq<char> {
    report_to_pressure(r) + "\nPSI (avg10/60/300): cpu "@ + known(r.psi_cpu) + " | mem "@ + known(
        r.psi_memory,
    ) + " | io "@ + known(r.psi_io) + "\n\n"@ + totals_text(&r.disk_totals)
}

spec fn disk_lines(r: &StatusReport) -> Seq<char> {
    if r.disk_rates@.len() == 0 {
        "\n  IO: (no devices)"@
    } else {
        rate_lines(r.disk_rates@, r.disk_rates@.len() as int, "read"@, "write"@)
    }
}

spec fn net_lines(r: &StatusReport) -> Seq<char> {
    if r.net_rates@.len() == 0 {
        " (no interfaces)"@
    } else {
        rate_lines(r.net_rates@, r.net_rates@.len() as int, "rx"@, "tx"@)
    }
}

spec fn report_end(r: &StatusReport) -> Seq<char> {
    sensor_text(r.hottest) + battery_text(r.battery) + "\n\nKernel: "@ + r.kernel@ + scx_text(
        r.scx,
    ) + units_text(r.failed_units)
}

proof fn lemma_report_parts(r: &StatusReport, p: Seq<char>)
    ensures
        text::contains(report_to_load(r), p) ==> text::contains(status_text(r), p),
        text::contains(report_to_pressure(r), p) ==> text::contains(status_text(r), p),
        text::contains(report_to_disk(r), p) ==> text::contains(status_text(r), p),
        text::contains(disk_lines(r), p) ==> text::contains(status_text(r), p),
        text::contains(net_lines(r), p) ==> text::contains(status_text(r), p),
        text::contains(report_end(r), p) ==> text::contains(status_text(r), p),
{
    text::lemma_contains_on(p);
    let a = report_to_disk(r);
    let b = a + disk_lines(r) + "\n\nNetwork:"@;
    let c = b + net_lines(r) + "\n\nTemps:"@;
    assert(status_text(r) == c + report_end(r));
    text::lemma_contains_more(a, disk_lines(r), p);
    text::lemma_contains_more(b, net_lines(r), p);
    text::lemma_contains_more(c, report_end(r), p);
    assert(text::contains(report_to_load(r), p) ==> text::contains(report_to_pressure(r), p));
    assert(text::contains(report_to_pressure(r), p) ==> text::contains(a, p));
    assert(text::contains(a, p) ==> text::contains(a + disk_lines(r), p));
    assert(text::contains(a + disk_lines(r), p) ==> text::contains(b, p));
    assert(text::contains(b, p) ==> text::contains(b + net_lines(r), p));
    assert(text::contains(b + net_lines(r), p) ==> text::contains(c, p));
    assert(text::contains(c, p) ==> text::contains(c + report_end(r), p));
}

/// The report tells the health, the processors, the load and the pressure.
pub proof fn law_the_report_tells_the_load(r: &StatusReport)
    ensures
        text::contains(
            status_text(r),
            "Health: "@ + text::decimal(r.health_score as nat) + "/100"@,
        ),
        text::contains(status_text(r), "\n\nCPU: "@ + r.cpu_total@ + "% total"@),
        text::contains(
            status_text(r),
            "\n\nLoad: "@ + r.load.0@ + " "@ + r.load.1@ + " "@ + r.load.2@,
        ),
        text::contains(
            status_text(r),
            "\nPSI (avg10/60/300): cpu "@ + known(r.psi_cpu) + " | mem "@ + known(r.psi_memory)
                + " | io "@ + known(r.psi_io),
        ),
{
    let health = health_text(r.health_score, text::texts(r.health_reasons@));
    let a = "Health: "@ + text::decimal(r.health_score as nat) + "/100"@;
    let b = "\n\nCPU: "@ + r.cpu_total@ + "% total"@;
    let c = "\n\nLoad: "@ + r.load.0@ + " "@ + r.load.1@ + " "@ + r.load.2@;
    let d = "\nPSI (avg10/60/300): cpu "@ + known(r.psi_cpu) + " | mem "@ + known(r.psi_memory)
        + " | io "@ + known(r.psi_io);
    assert(text::contains(status_text(r), a)) by {
        text::lemma_contains_on(a);
        assert(text::contains(health, a));
        assert(text::contains(report_to_load(r), a));
        lemma_report_parts(r, a);
    }
    assert(text::contains(status_text(r), b)) by {
        text::lemma_contains_on(b);
        text::lemma_regroup_six(
            health,
            "\n\nCPU: "@,
            r.cpu_total@,
            "% total"@,
            Seq::empty(),
            Seq::empty(),
            Seq::empty(),
        );
        text::lemma_contains_more(health, b, b);
        assert(text::contains(report_to_load(r), b));
        lemma_report_parts(r, b);
    }
    assert(text::contains(status_text(r), c)) by {
        text::lemma_contains_on(c);
        text::lemma_regroup_six(
            report_to_load(r),
            "\n\nLoad: "@,
            r.load.0@,
            " "@,
            r.load.1@,
            " "@,
            r.load.2@,
        );
        text::lemma_contains_more(report_to_load(r), c, c);
        assert(text::contains(report_to_pressure(r), c));
        lemma_report_parts(r, c);
    }
    assert(text::contains(status_text(r), d)) by {
        text::lemma_contains_on(d);
        text::lemma_regroup_six(
            report_to_pressure(r),
            "\nPSI (avg10/60/300): cpu "@,
            known(r.psi_cpu),
            " | mem "@,
            known(r.psi_memory),
            " | io "@,
            known(r.psi_io),
        );
        text::lemma_contains_more(report_to_pressure(r), d, d);
        assert(text::contains(report_to_disk(r), d));
        lemma_report_parts(r, d);
    }
}

proof fn lemma_rate_shown(
    list: Seq<Rate>,
    n: int,
    inward: Seq<char>,
    outward: Seq<char>,
    i: int,
)
    requires
        0 <= i < n <= list.len(),
    ensures
        text::contains(
            rate_lines(list, n, inward, outward),
            "\n  "@ + list[i].name@ + ": "@ + inward + " "@ + human(list[i].inward as nat)
                + "/s, "@ + outward + " "@ + human(list[i].outward as nat) + "/s"@,
        ),
    decreases n,
{
    let p = "\n  "@ + list[i].name@ + ": "@ + inward + " "@ + human(list[i].inward as nat)
        + "/s, "@ + outward + " "@ + human(list[i].outward as nat) + "/s"@;
    text::lemma_contains_on(p);
    let before = rate_lines(list, n - 1, inward, outward);
    if i < n - 1 {
        lemma_rate_shown(list, n - 1, inward, outward, i);
    } else {
        text::lemma_contains_more(before, p, p);
    }
}

/// The report tells what goes in and out of every device and interface.
pub proof fn law_the_report_tells_every_rate(r: &StatusReport, i: int)
    ensures
        0 <= i < r.disk_rates@.len() ==> text::contains(
            status_text(r),
            "\n  "@ + r.disk_rates@[i].name@ + ": "@ + "read"@ + " "@ + human(
                r.disk_rates@[i].inward as nat,
            ) + "/s, "@ + "write"@ + " "@ + human(r.disk_rates@[i].outward as nat) + "/s"@,
        ),
        0 <= i < r.net_rates@.len() ==> text::contains(
            status_text(r),
            "\n  "@ + r.net_rates@[i].name@ + ": "@ + "rx"@ + " "@ + human(
                r.net_rates@[i].inward as nat,
            ) + "/s, "@ + "tx"@ + " "@ + human(r.net_rates@[i].outward as nat) + "/s"@,
        ),
{
    if 0 <= i < r.disk_rates@.len() {
        let x = r.disk_rates@[i];
        let p = "\n  "@ + x.name@ + ": "@ + "read"@ + " "@ + human(x.inward as nat) + "/s, "@
            + "write"@ + " "@ + human(x.outward as nat) + "/s"@;
        lemma_rate_shown(r.disk_rates@, r.disk_rates@.len() as int, "read"@, "write"@, i);
        lemma_report_parts(r, p);
    }
    if 0 <= i < r.net_rates@.len() {
        let x = r.net_rates@[i];
        let p = "\n  "@ + x.name@ + ": "@ + "rx"@ + " "@ + human(x.inward as nat) + "/s, "@
            + "tx"@ + " "@ + human(x.outward as nat) + "/s"@;
        lemma_rate_shown(r.net_rates@, r.net_rates@.len() as int, "rx"@, "tx"@, i);
        lemma_report_parts(r, p);
    }
}

/// The report tells how many units have failed, that none has, or that it is
/// not known; and the kernel.
pub proof fn law_the_report_tells_failed_units(r: &StatusReport)
    ensures
        r.failed_units == Some(0usize) ==> text::contains(
            status_text(r),
            "\nFailed units: none"@,
        ),
        r.failed_units is Some && r.failed_units->0 > 0 ==> text::contains(
            status_text(r),
            "\nFailed units: "@ + text::decimal(r.failed_units->0 as nat),
        ),
        r.failed_units is None ==> text::contains(status_text(r), "\nFailed units: unknown"@),
        text::contains(status_text(r), "\n\nKernel: "@ + r.kernel@),
{
    let u = units_text(r.failed_units);
    let front = sensor_text(r.hottest) + battery_text(r.battery) + "\n\nKernel: "@ + r.kernel@
        + scx_text(r.scx);
    text::lemma_contains_on(u);
    text::lemma_contains_more(front, u, u);
    assert(report_end(r) == front + u);
    lemma_report_parts(r, u);
    let k = "\n\nKernel: "@ + r.kernel@;
    let lead = sensor_text(r.hottest) + battery_text(r.battery);
    assert(lead + "\n\nKernel: "@ + r.kernel@ =~= lead + k);
    text::lemma_contains_on(k);
    text::lemma_contains_more(lead, k, k);
    assert(text::contains(front, k));
    assert(text::contains(report_end(r), k));
    lemma_report_parts(r, k);
}

/// Each line that says something is a failed unit.
pub proof fn law_each_line_is_a_failed_unit(lines: Seq<Seq<char>>, line: Seq<char>)
    ensures
        said(Seq::<Seq<char>>::empty(), 0) == 0,
        text::trim(line).len() == 0 ==> said(lines.push(line), lines.len() as int + 1) == said(
            lines,
            lines.len() as int,
        ),
        text::trim(line).len() > 0 ==> said(lines.push(line), lines.len() as int + 1) == said(
            lines,
            lines.len() as int,
        ) + 1,
{
    lemma_same_said(lines, lines.push(line), lines.len() as int);
    assert(lines.push(line)[lines.len() as int] == line);
}

proof fn lemma_same_said(a: Seq<Seq<char>>, b: Seq<Seq<char>>, n: int)
    requires
        0 <= n <= a.len() <= b.len(),
        forall|i: int| 0 <= i < n ==> a[i] == b[i],
    ensures
        said(a, n) == said(b, n),
    decreases n,
{
    if n > 0 {
        lemma_same_said(a, b, n - 1);
    }
}

proof fn lemma_reason_shown(list: Seq<Seq<char>>, n: int, i: int)
    requires
        0 <= i < n <= list.len(),
    ensures
        text::contains(reason_lines(list, n), "\n  - "@ + list[i]),
    decreases n,
{
    let p = "\n  - "@ + list[i];
    text::lemma_contains_on(p);
    if i < n - 1 {
        lemma_reason_shown(list, n - 1, i);
    }
    text::lemma_contains_more(reason_lines(list, n - 1), "\n  - "@ + list[n - 1], p);
}

/// The report gives every reason for the score, each on a line of its own.
pub proof fn law_the_report_gives_every_reason(r: &StatusReport, i: int)
    ensures
        0 <= i < r.health_reasons@.len() ==> text::contains(
            status_text(r),
            "\n  - "@ + r.health_reasons@[i]@,
        ),
        r.health_reasons@.len() == 0 ==> text::contains(
            status_text(r),
            "Health: "@ + text::decimal(r.health_score as nat) + "/100"@ + " (all good)"@,
        ),
{
    let list = text::texts(r.health_reasons@);
    let health = health_text(r.health_score, list);
    if 0 <= i < list.len() {
        let p = "\n  - "@ + list[i];
        let lines = reason_lines(list, list.len() as int);
        lemma_reason_shown(list, list.len() as int, i);
        text::lemma_contains_more(
            "Health: "@ + text::decimal(r.health_score as nat) + "/100"@,
            lines,
            p,
        );
        assert(text::contains(health, p));
        text::lemma_contains_on(p);
        assert(text::contains(report_to_load(r), p));
        lemma_report_parts(r, p);
    }
    if list.len() == 0 {
        let p = health;
        text::lemma_contains_on(p);
        assert(text::contains(report_to_load(r), p));
        lemma_report_parts(r, p);
    }
}

/// Systemd is asked for failed units, one to a line and nothing else.
pub proof fn law_only_failed_units_are_asked_for()
    ensures
        failed_argv() == seq!["systemctl"@].push("--failed"@).push("--no-legend"@).push(
            "--plain"@,
        ),
{
    assert(failed_argv() =~= seq!["systemctl"@].push("--failed"@).push("--no-legend"@).push(
        "--plain"@,
    ));
}

/// The report tells the hottest sensor, the battery and the scheduler where
/// they are known.
pub proof fn law_the_report_tells_the_sensors(r: &StatusReport)
    ensures
        r.hottest matches Some(s) ==> text::contains(
            status_text(r),
            " hottest "@ + s.0@ + " "@ + s.1@ + "°C"@,
        ),
        r.battery matches Some(b) ==> text::contains(
            status_text(r),
            "\nBattery: "@ + text::decimal(b.0 as nat) + "% ("@ + b.1@ + ")"@,
        ),
        r.scx matches Some(s) ==> text::contains(status_text(r), " | scx: "@ + s@),
{
    let a = sensor_text(r.hottest);
    let b = battery_text(r.battery);
    let c = scx_text(r.scx);
    let kernel = a + b + "\n\nKernel: "@ + r.kernel@;
    let tail = kernel + c + units_text(r.failed_units);
    assert(text::contains(tail, a)) by {
        text::lemma_contains_on(a);
    }
    assert(text::contains(tail, b)) by {
        text::lemma_contains_on(b);
        text::lemma_contains_more(a, b, b);
    }
    assert(text::contains(tail, c)) by {
        text::lemma_contains_on(c);
        text::lemma_contains_more(kernel, c, c);
    }
    assert(report_end(r) == tail);
    lemma_report_parts(r, a);
    lemma_report_parts(r, b);
    lemma_report_parts(r, c);
}

} // verus!

//! `uninstall`: removes one package by its own package manager and then, of
//! what it left behind, what was selected.

use vstd::prelude::*;

use crate::commands::shared::{
    annotate, kept_in_full, law_nothing_is_left_untold, lemma_performed_is_of_run, notes_below,
    of_run,
};
use crate::exec::{
    execute_deletes, goes_on, lemma_warnings_add, performed, selected_deletes, since, steady,
    summed_up, total_freed, warnings, Act, Effector, Informed, Question, Summary,
};
use crate::item::{groups, Group, GroupModel};
use crate::output::{human, humanize_bytes, Mode};
use crate::pkg::{Backend, InstalledPackage, PackageModel};
use crate::pkg::flatpak;
use crate::pkg::pacman;
use crate::pkg::snap;
use crate::rules::{CmdModel, CmdSpec};
use crate::rules::command;
use crate::runner::CommandRunner;
use crate::safety::journal::{
    all_stamped, handed, read_after, stamp, AuditLog, Entry, Reading, Record, RecordModel,
};
use crate::text;
use crate::text::{concat2, concat4, concat5};

verus! {

broadcast use vstd::seq::group_seq_axioms;

/// Somebody has to pick the package, so there is no other way to run this
/// than at a terminal.
pub fn refusal(mode: Mode, stderr_is_tty: bool) -> (r: Option<String>)
    ensures
        text::opt_text(r) == (if mode != Mode::Human || !stderr_is_tty {
            Some("badger uninstall requires an interactive terminal"@)
        } else {
            None
        }),
{
    if mode != Mode::Human || !stderr_is_tty {
        Some("badger uninstall requires an interactive terminal".to_owned())
    } else {
        None
    }
}

/// The command that removes a package, and whether it needs root privilege.
pub open spec fn removal(p: PackageModel) -> (Seq<Seq<char>>, bool) {
    match p.backend {
        Backend::Pacman => (pacman::removal(p.id), true),
        Backend::Flatpak => (flatpak::removal(p.id), false),
        Backend::Snap => (snap::removal(p.id), true),
    }
}

pub fn remove_argv_for(package: &InstalledPackage) -> (r: (Vec<String>, bool))
    ensures
        (text::texts(r.0@), r.1) == removal(package@),
{
    match package.backend {
        Backend::Pacman => (pacman::remove_argv(package.id.as_str()), true),
        Backend::Flatpak => (flatpak::remove_argv(package.id.as_str()), false),
        Backend::Snap => (snap::remove_argv(package.id.as_str()), true),
    }
}

/// What is asked before a package is removed.
pub open spec fn question(p: PackageModel) -> Seq<Seq<char>> {
    seq![
        "About to remove "@ + p.name + " ("@ + p.version + ") via "@ + p.backend.name() + "."@,
        "Command: "@ + (if removal(p).1 {
            "sudo "@
        } else {
            ""@
        }) + text::join(removal(p).0, " "@),
    ]
}

pub fn confirm_lines(package: &InstalledPackage) -> (r: Vec<String>)
    ensures
        text::texts(r@) == question(package@),
{
    let (argv, sudo) = remove_argv_for(package);
    let mut first = concat5(
        "About to remove ",
        package.name.as_str(),
        " (",
        package.version.as_str(),
        ") via ",
    );
    first.append(package.backend.label());
    first.append(".");
    let joined = text::join_texts(&argv, " ");
    let mut second = concat2(
        "Command: ",
        if sudo {
            "sudo "
        } else {
            ""
        },
    );
    second.append(joined.as_str());
    let r = vec![first, second];
    assert(text::texts(r@) =~= question(package@));
    r
}

pub open spec fn removed_text(p: PackageModel, dry_run: bool) -> Seq<char> {
    if dry_run {
        "Would remove "@ + p.name + " via "@ + p.backend.name() + " (dry run)."@
    } else {
        "Removed "@ + p.name + " via "@ + p.backend.name() + "."@
    }
}

pub fn removal_summary_line(package: &InstalledPackage, dry_run: bool) -> (r: String)
    ensures
        r@ == removed_text(package@, dry_run),
{
    if dry_run {
        concat5(
            "Would remove ",
            package.name.as_str(),
            " via ",
            package.backend.label(),
            " (dry run).",
        )
    } else {
        concat5("Removed ", package.name.as_str(), " via ", package.backend.label(), ".")
    }
}

/// Deletes exactly the selected leftovers, inside the given places.
pub fn execute_leftover_selection<E: Effector, L: AuditLog>(
    list: &Vec<Group>,
    selection: &Vec<(usize, usize)>,
    allowed: &Vec<String>,
    effector: &mut E,
    log: &mut L,
    run_id: &str,
    dry_run: bool,
) -> (r: Summary)
    ensures
        steady(*old(effector), *final(effector)),
        final(effector).acts().len() >= old(effector).acts().len(),
        final(effector).acts().take(old(effector).acts().len() as int) == old(effector).acts(),
        final(log).entries().len() >= old(log).entries().len(),
        final(log).entries().take(old(log).entries().len() as int) == old(log).entries(),
        final(log).readings() == old(log).readings(),
        ({
            let plan = selected_deletes(
                groups(list@),
                list@.len() as int,
                selection@,
                text::texts(allowed@),
            );
            performed(
                plan,
                plan.len() as int,
                final(effector).acts().skip(old(effector).acts().len() as int),
                final(log).entries().skip(old(log).entries().len() as int),
                "uninstall"@,
                run_id@,
                dry_run,
            )
        }),
        summed_up(r, final(log).entries().skip(old(log).entries().len() as int)),
{
    execute_deletes(list, selection, allowed, effector, log, "uninstall", run_id, dry_run)
}

/// The command as the effector gets it.
pub open spec fn removal_cmd(p: PackageModel) -> CmdModel {
    CmdModel {
        argv: removal(p).0,
        sudo: removal(p).1,
        label: "Remove "@ + p.name,
    }
}

/// What goes on record for the removal, made at `ts`. `files` are those that
/// the package owned.
pub open spec fn removal_record(
    ts: Seq<char>,
    p: PackageModel,
    files: Option<Seq<Seq<char>>>,
    outcome: Seq<char>,
    run_id: Seq<char>,
    dry_run: bool,
) -> RecordModel {
    RecordModel {
        ts,
        run_id,
        cmd: "uninstall"@,
        rule: p.id,
        action: "cmd"@,
        argv: Some(removal(p).0),
        paths: files,
        sudo: removal(p).1,
        dry_run,
        bytes_freed: 0,
        outcome,
    }
}

/// The files of a package as they go on record: none where none are known.
pub open spec fn owned(files: Seq<Seq<char>>) -> Option<Seq<Seq<char>>> {
    if files.len() == 0 {
        None
    } else {
        Some(files)
    }
}

/// Whether there is any candidate among the leftovers.
pub open spec fn any_leftover(list: Seq<GroupModel>) -> bool {
    exists|i: int| 0 <= i < list.len() && (#[trigger] list[i]).candidates.len() > 0
}

fn has_leftover(list: &Vec<Group>) -> (r: bool)
    ensures
        r == any_leftover(groups(list@)),
{
    let ghost all = groups(list@);
    let mut i: usize = 0;
    while i < list.len()
        invariant
            i <= list.len(),
            all == groups(list@),
            forall|k: int| 0 <= k < i ==> (#[trigger] all[k]).candidates.len() == 0,
        decreases list.len() - i,
    {
        assert(all[i as int] == list@[i as int]@);
        if list[i].candidates.len() > 0 {
            assert(all[i as int].candidates.len() > 0);
            return true;
        }
        i += 1;
    }
    false
}

/// How a removal is told of.
pub open spec fn removal_text(p: PackageModel, freed: Option<u64>, dry_run: bool) -> Seq<char> {
    removed_text(p, dry_run) + (match freed {
        Some(bytes) => if dry_run {
            "\nWould free "@ + human(bytes as nat) + " from leftovers (dry run)."@
        } else {
            "\nFreed "@ + human(bytes as nat) + " from leftovers."@
        },
        None => ""@,
    })
}

/// What the command has to say.
#[derive(Debug)]
pub struct UninstallOutput {
    pub rendered: String,
}

/// Whether this is said of a removal: the text, with what the journal tells
/// of the run below it, or why the journal cannot be read. It is read once,
/// when all of `entries` have been handed over.
pub open spec fn said_of_removal(
    text: Seq<char>,
    entries: Seq<Entry>,
    readings: (Seq<Reading>, Seq<Reading>),
    run_id: Seq<char>,
    r: Result<UninstallOutput, String>,
) -> bool {
    read_after(readings.0, readings.1, entries) && match (readings.1.last().found, r) {
        (Ok(told), Ok(out)) => out.rendered@ == text + notes_below(told, run_id),
        (Err(why), Err(e)) => e@ == why,
        _ => false,
    }
}

/// Whether the files of a package were asked for, before anything else was
/// done. Only pacman can tell.
pub open spec fn files_asked(
    p: PackageModel,
    acts: Seq<Act>,
    questions: (Seq<Question>, Seq<Question>),
) -> bool {
    if p.backend == Backend::Pacman {
        &&& questions.1.len() == questions.0.len() + 1
        &&& questions.1.drop_last() == questions.0
        &&& questions.1.last().after == acts.len()
        &&& questions.1.last().exchange.argv == pacman::file_list_argv(p.id)
    } else {
        questions.1 == questions.0
    }
}

/// The files of a package, by what was answered.
pub open spec fn files_told(p: PackageModel, questions: Seq<Question>) -> Option<Seq<Seq<char>>> {
    if p.backend == Backend::Pacman {
        owned(command::printed_lines(questions.last().exchange.reply))
    } else {
        None
    }
}

/// Whether the removal and the leftovers were dealt with, and in what way.
/// The package's own removal comes first and is the only thing that happens
/// where it fails. `entries` and `readings` are the logs before and after it.
pub open spec fn removed(
    p: PackageModel,
    files: Option<Seq<Seq<char>>>,
    list: Seq<GroupModel>,
    selection: Seq<(usize, usize)>,
    allowed: Seq<Seq<char>>,
    acts: Seq<Act>,
    entries: (Seq<Entry>, Seq<Entry>),
    readings: (Seq<Reading>, Seq<Reading>),
    run_id: Seq<char>,
    dry_run: bool,
    r: Result<UninstallOutput, String>,
) -> bool {
    let outcome = acts[0]->Run_outcome.outcome;
    let plan = selected_deletes(list, list.len() as int, selection, allowed);
    let news = since(entries);
    &&& goes_on(entries)
    &&& acts.len() > 0
    &&& acts[0] is Run
    &&& acts[0]->cmd == removal_cmd(p)
    &&& news.len() > 0
    &&& all_stamped(news)
    &&& news[0].record == removal_record(
        news[0].record.ts,
        p,
        files,
        outcome,
        run_id,
        dry_run,
    )
    &&& if text::starts_with(outcome, "error"@) {
        &&& acts.len() == 1
        &&& news.len() == 1
        &&& readings.1 == readings.0
        &&& r is Err
        &&& r->Err_0@ == "failed to remove "@ + p.name + ": "@ + outcome
    } else if any_leftover(list) {
        &&& performed(
            plan,
            plan.len() as int,
            acts.skip(1),
            news.skip(1),
            "uninstall"@,
            run_id,
            dry_run,
        )
        &&& said_of_removal(
            removal_text(p, Some(total_freed(news.skip(1))), dry_run),
            entries.1,
            readings,
            run_id,
            r,
        )
    } else {
        &&& acts.len() == 1
        &&& news.len() == 1
        &&& said_of_removal(removal_text(p, None, dry_run), entries.1, readings, run_id, r)
    }
}

/// Removes the package, then the selected leftovers, and says what came of
/// it, and which records could not be written. The files that a pacman
/// package owns are asked for before they are gone, and put on record.
pub fn render_after_removal_and_leftovers<R: CommandRunner, E: Effector, L: AuditLog>(
    package: &InstalledPackage,
    list: &Vec<Group>,
    selection: &Vec<(usize, usize)>,
    allowed: &Vec<String>,
    effector: &mut Informed<R, E>,
    log: &mut L,
    run_id: &str,
    dry_run: bool,
) -> (r: (Result<UninstallOutput, String>, Vec<String>))
    ensures
        final(effector).setup() == old(effector).setup(),
        old(effector).sound() ==> final(effector).sound(),
        goes_on((old(effector).acts(), final(effector).acts())),
        files_asked(
            package@,
            old(effector).acts(),
            (old(effector).questions(), final(effector).questions()),
        ),
        removed(
            package@,
            files_told(package@, final(effector).questions()),
            groups(list@),
            selection@,
            text::texts(allowed@),
            since((old(effector).acts(), final(effector).acts())),
            (old(log).entries(), final(log).entries()),
            (old(log).readings(), final(log).readings()),
            run_id@,
            dry_run,
            r.0,
        ),
        text::texts(r.1@) == warnings(since((old(log).entries(), final(log).entries()))),
{
    let ghost acts0 = effector.acts();
    let ghost entries0 = log.entries();
    let ghost na = acts0.len() as int;
    let ghost ne = entries0.len() as int;
    let (argv, sudo) = remove_argv_for(package);
    let owned_files: Option<Vec<String>> = match package.backend {
        Backend::Pacman => {
            let argv = pacman::file_list_args(package.id.as_str());
            let answer = effector.ask(&argv);
            let files = pacman::files_in(&answer);
            assert(effector.questions().drop_last() =~= old(effector).questions());
            assert(text::texts(files@).len() == files@.len());
            if files.len() == 0 {
                None
            } else {
                Some(files)
            }
        },
        _ => None,
    };
    let cmd = CmdSpec {
        argv: text::copies(&argv),
        sudo,
        label: concat2("Remove ", package.name.as_str()),
    };
    let outcome = effector.run(&cmd);
    let ghost acts1 = effector.acts();
    assert(acts1.skip(na) =~= seq![acts1.last()]);
    assert(acts1.take(na) =~= acts0);
    let record = Record::now(
        run_id.to_owned(),
        "uninstall".to_owned(),
        package.id.clone(),
        "cmd".to_owned(),
        Some(argv),
        owned_files,
        sudo,
        dry_run,
        0,
        outcome.outcome.clone(),
    );
    let mut told: Vec<String> = Vec::new();
    assert(text::texts(told@) =~= Seq::empty());
    if let Err(e) = log.append(&record) {
        told.push(concat2("failed to record audit trail: ", e.as_str()));
    }
    let ghost entries1 = log.entries();
    let ghost first = entries1.skip(ne);
    assert(first =~= seq![entries1.last()]);
    assert(entries1.take(ne) =~= entries0);
    assert(all_stamped(first)) by {
        assert(first[0].record == record@);
    }
    assert(text::texts(told@) =~= warnings(first)) by {
        assert(first.drop_last() =~= Seq::empty());
        assert(warnings(first.drop_last()) =~= Seq::empty());
        assert(first.last() == entries1.last());
    }
    if text::has_prefix(outcome.outcome.as_str(), "error") {
        let why = concat4(
            "failed to remove ",
            package.name.as_str(),
            ": ",
            outcome.outcome.as_str(),
        );
        return (Err(why), told);
    }
    let mut rendered = removal_summary_line(package, dry_run);
    if has_leftover(list) {
        let mut summary = execute_leftover_selection(
            list,
            selection,
            allowed,
            effector,
            log,
            run_id,
            dry_run,
        );
        proof {
            let acts = effector.acts();
            let entries = log.entries();
            assert(acts.take(na) =~= acts.take(acts1.len() as int).take(na));
            assert(entries.take(ne) =~= entries.take(entries1.len() as int).take(ne));
            assert(acts.skip(na).skip(1) =~= acts.skip(acts1.len() as int));
            assert(entries.skip(ne).skip(1) =~= entries.skip(entries1.len() as int));
            assert(acts.skip(na)[0] == acts.take(acts1.len() as int)[na]);
            assert(entries.skip(ne)[0] == entries.take(entries1.len() as int)[ne]);
            assert(entries.skip(ne).take(1) =~= first);
            let news = entries.skip(ne);
            assert forall|k: int| 0 <= k < news.len() implies stamp(
                (#[trigger] news[k]).record.ts,
            ) by {
                if k > 0 {
                    assert(news[k] == news.skip(1)[k - 1]);
                }
            }
        }
        let size = humanize_bytes(summary.bytes_freed);
        let tail = if dry_run {
            text::concat3("\nWould free ", size.as_str(), " from leftovers (dry run).")
        } else {
            text::concat3("\nFreed ", size.as_str(), " from leftovers.")
        };
        rendered.append(tail.as_str());
        let ghost a = told@;
        let ghost b = summary.journal_warnings@;
        told.append(&mut summary.journal_warnings);
        assert(text::texts(told@) =~= text::texts(a) + text::texts(b));
        proof {
            let news = log.entries().skip(ne);
            lemma_warnings_add(first, news.skip(1));
            assert(first + news.skip(1) =~= news);
        }
    } else {
        rendered.append("");
    }
    let found = log.read_all();
    assert(log.readings().drop_last() =~= old(log).readings());
    let out = match found {
        Ok(list) => Ok(UninstallOutput { rendered: annotate(rendered.as_str(), &list, run_id) }),
        Err(e) => Err(e),
    };
    (out, told)
}

// ------------------------------------------------------------------------- laws

/// Where the journal holds a removal as it was, what is said of it is said of
/// exactly what it put on record.
pub proof fn law_a_removal_is_told_in_full(
    p: PackageModel,
    files: Option<Seq<Seq<char>>>,
    list: Seq<GroupModel>,
    selection: Seq<(usize, usize)>,
    allowed: Seq<Seq<char>>,
    acts: Seq<Act>,
    entries: (Seq<Entry>, Seq<Entry>),
    readings: (Seq<Reading>, Seq<Reading>),
    earlier: Seq<RecordModel>,
    run_id: Seq<char>,
    dry_run: bool,
    r: Result<UninstallOutput, String>,
)
    requires
        removed(
            p,
            files,
            list,
            selection,
            allowed,
            acts,
            entries,
            readings,
            run_id,
            dry_run,
            r,
        ),
        !text::starts_with(acts[0]->Run_outcome.outcome, "error"@),
        kept_in_full(earlier, entries, readings.1.last(), run_id),
    ensures
        r is Ok,
        r->Ok_0.rendered@ == removal_text(
            p,
            if any_leftover(list) {
                Some(total_freed(since(entries).skip(1)))
            } else {
                None
            },
            dry_run,
        ) + notes_below(handed(since(entries)), run_id),
{
    let news = since(entries);
    let all = handed(news);
    assert(of_run(all, run_id)) by {
        assert forall|k: int| 0 <= k < all.len() implies (#[trigger] all[k]).run_id == run_id by {
            if k == 0 {
                assert(all[0] == news[0].record);
            } else {
                let plan = selected_deletes(list, list.len() as int, selection, allowed);
                lemma_performed_is_of_run(
                    plan,
                    plan.len() as int,
                    acts.skip(1),
                    news.skip(1),
                    "uninstall"@,
                    run_id,
                    dry_run,
                );
                assert(handed(news.skip(1))[k - 1] == all[k]);
            }
        }
    }
    law_nothing_is_left_untold(earlier, entries, readings.1.last(), run_id);
}

/// A package is removed by the tool that installed it and by its own id, with
/// root's power unless it is a flatpak; what is asked before says so.
pub proof fn law_a_package_goes_the_way_it_came(p: PackageModel)
    ensures
        p.backend == Backend::Pacman ==> removal(p).0 == pacman::removal(p.id) && removal(p).1,
        p.backend == Backend::Flatpak ==> removal(p).0 == flatpak::removal(p.id) && !removal(p).1,
        p.backend == Backend::Snap ==> removal(p).0 == snap::removal(p.id) && removal(p).1,
        question(p).len() == 2,
        question(p)[0] == "About to remove "@ + p.name + " ("@ + p.version + ") via "@
            + p.backend.name() + "."@,
        p.backend != Backend::Flatpak ==> question(p)[1] == "Command: sudo "@ + text::join(
            removal(p).0,
            " "@,
        ),
        p.backend == Backend::Flatpak ==> question(p)[1] == "Command: "@ + text::join(
            removal(p).0,
            " "@,
        ),
{
    reveal_strlit("Command: ");
    reveal_strlit("sudo ");
    reveal_strlit("Command: sudo ");
    reveal_strlit("");
    assert("Command: sudo "@ =~= "Command: "@ + "sudo "@);
    assert("Command: "@ + ""@ =~= "Command: "@);
}

/// A removal is told as done where it was, and as what would be where it was
/// not, with what the leftovers free.
pub proof fn law_a_dry_removal_is_told_as_such(p: PackageModel, bytes: u64)
    ensures
        removal_text(p, None, false) == "Removed "@ + p.name + " via "@ + p.backend.name() + "."@,
        removal_text(p, None, true) == "Would remove "@ + p.name + " via "@ + p.backend.name()
            + " (dry run)."@,
        removal_text(p, Some(bytes), false) == "Removed "@ + p.name + " via "@ + p.backend.name()
            + "."@ + ("\nFreed "@ + human(bytes as nat) + " from leftovers."@),
        removal_text(p, Some(bytes), true) == "Would remove "@ + p.name + " via "@
            + p.backend.name() + " (dry run)."@ + ("\nWould free "@ + human(bytes as nat)
            + " from leftovers (dry run)."@),
{
    reveal_strlit("");
    assert(removed_text(p, false) + ""@ =~= removed_text(p, false));
    assert(removed_text(p, true) + ""@ =~= removed_text(p, true));
}

/// The removal itself goes on record first, as the command that was run, with
/// the files that the package owned and how it ended. Where it failed nothing
/// else is done and the failure is told.
pub proof fn law_a_removal_goes_on_record(
    p: PackageModel,
    files: Option<Seq<Seq<char>>>,
    list: Seq<GroupModel>,
    selection: Seq<(usize, usize)>,
    allowed: Seq<Seq<char>>,
    acts: Seq<Act>,
    entries: (Seq<Entry>, Seq<Entry>),
    readings: (Seq<Reading>, Seq<Reading>),
    run_id: Seq<char>,
    dry_run: bool,
    r: Result<UninstallOutput, String>,
)
    requires
        removed(
            p,
            files,
            list,
            selection,
            allowed,
            acts,
            entries,
            readings,
            run_id,
            dry_run,
            r,
        ),
    ensures
        acts.len() > 0,
        acts[0]->cmd.argv == removal(p).0,
        acts[0]->cmd.sudo == removal(p).1,
        entries.1.len() > entries.0.len(),
        ({
            let record = entries.1[entries.0.len() as int].record;
            &&& record.cmd == "uninstall"@
            &&& record.action == "cmd"@
            &&& record.rule == p.id
            &&& record.argv == Some(removal(p).0)
            &&& record.sudo == removal(p).1
            &&& record.paths == files
            &&& record.run_id == run_id
            &&& record.dry_run == dry_run
            &&& record.bytes_freed == 0
            &&& record.outcome == acts[0]->Run_outcome.outcome
        }),
        text::starts_with(acts[0]->Run_outcome.outcome, "error"@) ==> {
            &&& acts.len() == 1
            &&& entries.1.len() == entries.0.len() + 1
            &&& r is Err
        },
{
    let news = since(entries);
    assert(news[0] == entries.1[entries.0.len() as int]);
}

/// The files of a pacman package are asked for and go on record where there
/// are any; nobody is asked about others.
pub proof fn law_only_pacman_knows_the_files(
    p: PackageModel,
    acts: Seq<Act>,
    questions: (Seq<Question>, Seq<Question>),
)
    requires
        files_asked(p, acts, questions),
    ensures
        p.backend != Backend::Pacman ==> questions.1 == questions.0 && files_told(
            p,
            questions.1,
        ) is None,
        p.backend == Backend::Pacman ==> {
            let last = questions.1.last();
            let printed = command::printed_lines(last.exchange.reply);
            &&& questions.1 == questions.0.push(last)
            &&& last.exchange.argv == pacman::file_list_argv(p.id)
            &&& printed.len() == 0 ==> files_told(p, questions.1) is None
            &&& printed.len() > 0 ==> files_told(p, questions.1) == Some(printed)
        },
{
    if p.backend == Backend::Pacman {
        assert(questions.1 =~= questions.0.push(questions.1.last()));
    }
}

} // verus!

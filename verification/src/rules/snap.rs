//! `snap.old_revisions`: disabled snap revisions snapd keeps around so that
//! `snap revert` can roll back to them. Removing them frees space but gives
//! up that rollback option for the removed revisions.

use vstd::prelude::*;

use crate::item::{candidates, fresh, skips, Candidate, CandidateModel, Risk, Skip};
use crate::rules::{
    cmds, models, strs0, Action, Applicability, ApplicabilityModel, CmdModel, CmdSpec, Detector,
    DetectorModel, Finder, RefusingCommands, Rule, RuleModel,
};
use crate::runner::{CommandRunner, Reply};
use crate::snapper;
use crate::text;
use crate::text::{chars_of, concat4};

verus! {

broadcast use vstd::seq::group_seq_axioms;

pub const OLD_REVISIONS_NOTES: &'static str =
    "Disabled, superseded revisions snapd keeps around for rollback; removing them frees space but removes the ability to `snap revert` to those revisions.";

pub open spec fn table() -> Seq<RuleModel> {
    seq![
        (RuleModel {
            id: "snap.old_revisions"@,
            title: "Old snap revisions"@,
            risk: Risk::Risky,
            requires_sudo: true,
            applicable: ApplicabilityModel::CommandExists("snap"@),
            allowed_prefixes: Seq::empty(),
            detector: DetectorModel::Fn(Finder::OldRevisions),
            action: Action::CmdSelectedWithSkips(RefusingCommands::OldRevisions),
            notes: OLD_REVISIONS_NOTES@,
        }),
    ]
}

pub fn rules() -> (r: Vec<Rule>)
    ensures
        models(r@) == table(),
{
    let r = vec![
        Rule {
            id: "snap.old_revisions",
            title: "Old snap revisions",
            risk: Risk::Risky,
            requires_sudo: true,
            applicable: Applicability::CommandExists("snap"),
            allowed_prefixes: strs0(),
            detector: Detector::Fn(Finder::OldRevisions),
            action: Action::CmdSelectedWithSkips(RefusingCommands::OldRevisions),
            notes: OLD_REVISIONS_NOTES,
        },
    ];
    assert(models(r@) =~= table());
    r
}

pub open spec fn list_all_argv() -> Seq<Seq<char>> {
    seq!["snap"@, "list"@, "--all"@]
}

pub open spec fn revision_label(name: Seq<char>, rev: Seq<char>) -> Seq<char> {
    name + " (revision "@ + rev + ")"@
}

/// The candidate for one row of `snap list --all`: its last column, split at
/// commas, holds the exact word `disabled`.
pub open spec fn old_revision(line: Seq<char>) -> Option<CandidateModel> {
    let cols = text::words(line);
    if cols.len() >= 6 && text::fields(cols[cols.len() - 1], ',').contains("disabled"@) {
        Some(fresh(None, revision_label(cols[0], cols[2]), 0, Risk::Risky))
    } else {
        None
    }
}

/// The candidates among the first `n` lines; the first line is the head of
/// the table.
pub open spec fn old_revisions(lines: Seq<Seq<char>>, n: int) -> Seq<CandidateModel>
    decreases n,
{
    if n <= 1 {
        Seq::empty()
    } else {
        match old_revision(lines[n - 1]) {
            Some(c) => old_revisions(lines, n - 1).push(c),
            None => old_revisions(lines, n - 1),
        }
    }
}

/// What the reply to `snap list --all` comes to.
pub open spec fn old_revisions_reply(reply: Reply) -> Seq<CandidateModel> {
    match reply {
        Ok(out) => if out.success {
            old_revisions(text::lines(out.stdout), text::lines(out.stdout).len() as int)
        } else {
            Seq::empty()
        },
        Err(_) => Seq::empty(),
    }
}

fn old_revision_candidate(line: &str) -> (r: Option<Candidate>)
    ensures
        match r {
            Some(c) => old_revision(line@) == Some(c@),
            None => old_revision(line@) is None,
        },
{
    let cols = text::split_words(line);
    let ghost w = text::texts(cols@);
    assert(w.len() == cols.len());
    if cols.len() < 6 {
        return None;
    }
    let n: usize = cols.len();
    assert(w[n - 1] == cols@[n - 1]@ && w[0] == cols@[0]@ && w[2] == cols@[2]@);
    let notes = text::split(cols[n - 1].as_str(), ',');
    if text::holds(&notes, "disabled") {
        let label = concat4(cols[0].as_str(), " (revision ", cols[2].as_str(), ")");
        Some(Candidate::new(None, label, 0, Risk::Risky))
    } else {
        None
    }
}

/// The disabled revisions in the output of `snap list --all`.
pub fn parse_old_revisions(stdout: &str) -> (r: Vec<Candidate>)
    ensures
        candidates(r@) == old_revisions(text::lines(stdout@), text::lines(stdout@).len() as int),
{
    let list = text::split_lines(stdout);
    let ghost all = text::texts(list@);
    let mut out: Vec<Candidate> = Vec::new();
    assert(candidates(out@) =~= Seq::empty());
    assert(all.len() == list.len());
    let mut i: usize = 1;
    while i < list.len()
        invariant
            1 <= i,
            i <= list.len() || i == 1,
            all == text::texts(list@),
            candidates(out@) == old_revisions(all, i as int),
        decreases list.len() - i,
    {
        assert(all[i as int] == list@[i as int]@);
        let ghost had = out@;
        if let Some(c) = old_revision_candidate(list[i].as_str()) {
            out.push(c);
            assert(candidates(out@) =~= candidates(had).push(c@));
        }
        i += 1;
    }
    out
}

pub fn old_revisions_detector<R: CommandRunner>(runner: &mut R) -> (r: Vec<Candidate>)
    ensures
        final(runner).prepared() == old(runner).prepared(),
        snapper::asked(old(runner).exchanges(), final(runner).exchanges(), list_all_argv()),
        candidates(r@) == old_revisions_reply(final(runner).exchanges().last().reply),
{
    let argv = text::list3("snap", "list", "--all");
    let reply = runner.run(&argv);
    assert(runner.exchanges().drop_last() =~= old(runner).exchanges());
    let none: Vec<Candidate> = Vec::new();
    assert(candidates(none@) =~= Seq::empty());
    match reply {
        Ok(out) => if out.success {
            parse_old_revisions(out.stdout.as_str())
        } else {
            none
        },
        Err(_) => none,
    }
}

/// A label read back into name and revision, both there.
pub open spec fn revision_read(label: Seq<char>) -> Option<(Seq<char>, Seq<char>)> {
    match text::halves(label, " (revision "@) {
        Some((name, rest)) => match text::before_suffix(rest, ")"@) {
            Some(rev) => if name.len() == 0 || rev.len() == 0 {
                None
            } else {
                Some((name, rev))
            },
            None => None,
        },
        None => None,
    }
}

pub fn parse_revision_label(label: &str) -> (r: Option<(String, String)>)
    ensures
        text::opt_pair(r) == revision_read(label@),
{
    match text::cut_at(label, " (revision ") {
        Some((name, rest)) => match text::cut_suffix(rest.as_str(), ")") {
            Some(rev) => if name.as_str().is_empty() || rev.as_str().is_empty() {
                None
            } else {
                Some((name, rev))
            },
            None => None,
        },
        None => None,
    }
}

pub open spec fn lower_or_digit(c: char) -> bool {
    'a' <= c <= 'z' || '0' <= c <= '9'
}

/// snapd's own naming rule: lower case letters, digits and hyphens, and a
/// letter or digit first, so that a name cannot be mistaken for a flag.
pub open spec fn valid_snap_name(name: Seq<char>) -> bool {
    &&& name.len() > 0
    &&& lower_or_digit(name[0])
    &&& forall|i: int|
        0 <= i < name.len() ==> lower_or_digit(#[trigger] name[i]) || name[i] == '-'
}

pub fn is_valid_snap_name(name: &str) -> (r: bool)
    ensures
        r == valid_snap_name(name@),
{
    let v = chars_of(name);
    if v.len() == 0 {
        return false;
    }
    let first = v[0];
    if !(('a' <= first && first <= 'z') || ('0' <= first && first <= '9')) {
        return false;
    }
    let mut i: usize = 0;
    while i < v.len()
        invariant
            i <= v.len(),
            v@ == name@,
            forall|k: int| 0 <= k < i ==> lower_or_digit(#[trigger] v@[k]) || v@[k] == '-',
        decreases v.len() - i,
    {
        let c = v[i];
        if !(('a' <= c && c <= 'z') || ('0' <= c && c <= '9') || c == '-') {
            assert(!(lower_or_digit(name@[i as int]) || name@[i as int] == '-'));
            return false;
        }
        i += 1;
    }
    true
}

pub open spec fn alphanumeric(c: char) -> bool {
    lower_or_digit(c) || 'A' <= c <= 'Z'
}

/// Revisions are numbers, or things like `x1` for what was installed
/// locally.
pub open spec fn valid_revision(rev: Seq<char>) -> bool {
    rev.len() > 0 && forall|i: int| 0 <= i < rev.len() ==> alphanumeric(#[trigger] rev[i])
}

pub fn is_valid_revision(rev: &str) -> (r: bool)
    ensures
        r == valid_revision(rev@),
{
    let v = chars_of(rev);
    let mut i: usize = 0;
    while i < v.len()
        invariant
            i <= v.len(),
            v@ == rev@,
            forall|k: int| 0 <= k < i ==> alphanumeric(#[trigger] v@[k]),
        decreases v.len() - i,
    {
        let c = v[i];
        if !(('a' <= c && c <= 'z') || ('0' <= c && c <= '9') || ('A' <= c && c <= 'Z')) {
            assert(!alphanumeric(rev@[i as int]));
            return false;
        }
        i += 1;
    }
    v.len() > 0
}

/// Name and revision of a label that can safely be acted on.
pub open spec fn removable(label: Seq<char>) -> Option<(Seq<char>, Seq<char>)> {
    match revision_read(label) {
        Some((name, rev)) => if valid_snap_name(name) && valid_revision(rev) {
            Some((name, rev))
        } else {
            None
        },
        None => None,
    }
}

pub open spec fn remove_revision(name: Seq<char>, rev: Seq<char>) -> CmdModel {
    CmdModel {
        argv: seq!["snap"@, "remove"@, name, "--revision"@, rev],
        sudo: true,
        label: "Remove "@ + name + " revision "@ + rev,
    }
}

pub open spec fn revision_commands(selected: Seq<CandidateModel>, n: int) -> Seq<CmdModel>
    decreases n,
{
    if n <= 0 {
        Seq::empty()
    } else {
        match removable(selected[n - 1].label) {
            Some((name, rev)) => revision_commands(selected, n - 1).push(
                remove_revision(name, rev),
            ),
            None => revision_commands(selected, n - 1),
        }
    }
}

pub open spec fn revision_refusals(selected: Seq<CandidateModel>, n: int) -> Seq<
    (Seq<char>, Seq<char>),
>
    decreases n,
{
    if n <= 0 {
        Seq::empty()
    } else {
        match removable(selected[n - 1].label) {
            Some(_) => revision_refusals(selected, n - 1),
            None => revision_refusals(selected, n - 1).push(
                (selected[n - 1].label, "could not be safely interpreted — not removed"@),
            ),
        }
    }
}

/// One command per selected revision; what cannot be read as one is refused.
pub fn old_revisions_cmd(selected: &Vec<Candidate>) -> (r: (Vec<CmdSpec>, Vec<Skip>))
    ensures
        cmds(r.0@) == revision_commands(candidates(selected@), selected@.len() as int),
        skips(r.1@) == revision_refusals(candidates(selected@), selected@.len() as int),
{
    let ghost sel = candidates(selected@);
    let mut specs: Vec<CmdSpec> = Vec::new();
    let mut notes: Vec<Skip> = Vec::new();
    let mut i: usize = 0;
    assert(cmds(specs@) =~= Seq::empty());
    assert(skips(notes@) =~= Seq::empty());
    while i < selected.len()
        invariant
            i <= selected.len(),
            sel == candidates(selected@),
            cmds(specs@) == revision_commands(sel, i as int),
            skips(notes@) == revision_refusals(sel, i as int),
        decreases selected.len() - i,
    {
        let label = selected[i].label.as_str();
        assert(sel[i as int] == selected@[i as int]@);
        let ghost built = specs@;
        let ghost noted = notes@;
        let parsed = match parse_revision_label(label) {
            Some((name, rev)) => if is_valid_snap_name(name.as_str()) && is_valid_revision(
                rev.as_str(),
            ) {
                Some((name, rev))
            } else {
                None
            },
            None => None,
        };
        match parsed {
            Some((name, rev)) => {
                let c = CmdSpec {
                    argv: text::list5("snap", "remove", name.as_str(), "--revision", rev.as_str()),
                    sudo: true,
                    label: concat4("Remove ", name.as_str(), " revision ", rev.as_str()),
                };
                specs.push(c);
                assert(cmds(specs@) =~= cmds(built).push(remove_revision(name@, rev@)));
            },
            None => {
                notes.push(
                    (
                        label.to_owned(),
                        "could not be safely interpreted — not removed".to_owned(),
                    ),
                );
                assert(skips(notes@) =~= skips(noted).push(
                    (label@, "could not be safely interpreted — not removed"@),
                ));
            },
        }
        i += 1;
    }
    (specs, notes)
}

/// The label of a revision leads back to its name and number.
pub proof fn law_revision_label_reads_back(name: Seq<char>, rev: Seq<char>)
    requires
        valid_snap_name(name),
        valid_revision(rev),
    ensures
        removable(revision_label(name, rev)) == Some((name, rev)),
{
    reveal_strlit(" (revision ");
    reveal_strlit(")");
    let mark = " (revision "@;
    let label = revision_label(name, rev);
    let k = name.len() as int;
    assert(text::at(label, mark, k)) by {
        assert(label.subrange(k, k + 11) =~= mark);
    }
    assert forall|j: int| 0 <= j < k implies !text::at(label, mark, j) by {
        if text::at(label, mark, j) {
            assert(label.subrange(j, j + 11)[0] == label[j]);
            assert(label[j] == name[j]);
            assert(lower_or_digit(name[j]) || name[j] == '-');
        }
    }
    text::lemma_find_is(label, mark, 0, k);
    assert(label.take(k) =~= name);
    let rest = label.skip(k + 11);
    assert(rest =~= rev + ")"@);
    let n = rev.len() as int;
    assert(rest.subrange(n, n + 1) =~= ")"@);
    assert(rest.take(n) =~= rev);
}

/// Whatever is selected, a command removes one revision of a snap whose name
/// cannot be mistaken for a flag.
pub proof fn law_removals_name_valid_snaps(selected: Seq<CandidateModel>, n: int, c: int)
    requires
        0 <= n <= selected.len(),
        0 <= c < revision_commands(selected, n).len(),
    ensures
        exists|name: Seq<char>, rev: Seq<char>|
            {
                &&& revision_commands(selected, n)[c] == #[trigger] remove_revision(name, rev)
                &&& valid_snap_name(name)
                &&& valid_revision(rev)
            },
    decreases n,
{
    if n > 0 {
        if c < revision_commands(selected, n - 1).len() {
            law_removals_name_valid_snaps(selected, n - 1, c);
            let (name, rev) = choose|name: Seq<char>, rev: Seq<char>|
                {
                    &&& revision_commands(selected, n - 1)[c] == #[trigger] remove_revision(
                        name,
                        rev,
                    )
                    &&& valid_snap_name(name)
                    &&& valid_revision(rev)
                };
            assert(revision_commands(selected, n)[c] == remove_revision(name, rev));
        } else {
            let (name, rev) = removable(selected[n - 1].label)->Some_0;
            assert(revision_commands(selected, n)[c] == remove_revision(name, rev));
        }
    }
}

/// What is selected is either removed or refused with a note.
pub proof fn law_no_selected_revision_is_dropped(selected: Seq<CandidateModel>, n: int, i: int)
    requires
        0 <= i < n <= selected.len(),
    ensures
        match removable(selected[i].label) {
            Some((name, rev)) => revision_commands(selected, n).contains(
                remove_revision(name, rev),
            ),
            None => revision_refusals(selected, n).contains(
                (selected[i].label, "could not be safely interpreted — not removed"@),
            ),
        },
    decreases n,
{
    let built = revision_commands(selected, n - 1);
    let noted = revision_refusals(selected, n - 1);
    if i < n - 1 {
        law_no_selected_revision_is_dropped(selected, n - 1, i);
        match removable(selected[i].label) {
            Some((name, rev)) => {
                let c = remove_revision(name, rev);
                let k = choose|k: int| 0 <= k < built.len() && built[k] == c;
                assert(revision_commands(selected, n)[k] == c);
            },
            None => {
                let note = (
                    selected[i].label,
                    "could not be safely interpreted — not removed"@,
                );
                let k = choose|k: int| 0 <= k < noted.len() && noted[k] == note;
                assert(revision_refusals(selected, n)[k] == note);
            },
        }
    } else {
        match removable(selected[i].label) {
            Some((name, rev)) => {
                assert(revision_commands(selected, n)[built.len() as int] == remove_revision(
                    name,
                    rev,
                ));
            },
            None => {
                assert(revision_refusals(selected, n)[noted.len() as int].0 == selected[i].label);
            },
        }
    }
}

// ------------------------------------------------------------------------ laws


/// The columns of a row: name, version, revision, what comes between, notes.
pub open spec fn row(
    name: Seq<char>,
    version: Seq<char>,
    rev: Seq<char>,
    between: Seq<Seq<char>>,
    notes: Seq<char>,
) -> Seq<Seq<char>> {
    seq![name, version, rev] + between + seq![notes]
}

/// A row is offered by name and revision, and not selected, where one of its
/// notes is the word `disabled`; a revision in use is not.
pub proof fn law_disabled_revisions_are_offered(
    name: Seq<char>,
    version: Seq<char>,
    rev: Seq<char>,
    between: Seq<Seq<char>>,
    notes: Seq<char>,
)
    requires
        between.len() >= 2,
        forall|i: int|
            0 <= i < row(name, version, rev, between, notes).len() ==> text::one_word(
                #[trigger] row(name, version, rev, between, notes)[i],
            ),
    ensures
        ({
            let line = text::join(row(name, version, rev, between, notes), " "@);
            let c = old_revision(line);
            &&& c is Some <==> text::fields(notes, ',').contains("disabled"@)
            &&& c is Some ==> {
                &&& c->0.label == name + " (revision "@ + rev + ")"@
                &&& c->0.path is None
                &&& !c->0.selectable
            }
        }),
{
    let cols = row(name, version, rev, between, notes);
    text::law_words_read_back(cols);
    assert(cols[0] == name);
    assert(cols[2] == rev);
    assert(cols[cols.len() - 1] == notes);
}

/// Every row of the table is looked at, but for its head; a failed command
/// offers nothing.
pub proof fn law_all_rows_are_looked_at(lines: Seq<Seq<char>>, n: int, j: int)
    requires
        1 <= j < n <= lines.len(),
        old_revision(lines[j]) is Some,
    ensures
        old_revisions(lines, n).contains(old_revision(lines[j])->0),
    decreases n,
{
    let x = old_revision(lines[j])->0;
    let before = old_revisions(lines, n - 1);
    let now = old_revisions(lines, n);
    if j < n - 1 {
        law_all_rows_are_looked_at(lines, n - 1, j);
        let k = choose|k: int| 0 <= k < before.len() && before[k] == x;
        assert(now[k] == x);
    } else {
        assert(now[before.len() as int] == x);
    }
}

/// What is selected is removed by its name and revision, with root's power.
pub proof fn law_a_revision_is_removed_by_name(name: Seq<char>, rev: Seq<char>)
    ensures
        remove_revision(name, rev).argv == seq!["snap"@, "remove"@, name, "--revision"@, rev],
        remove_revision(name, rev).sudo,
{
}

/// A label is read only where it names both a snap and a revision.
pub proof fn law_revision_labels_are_complete(label: Seq<char>)
    ensures
        revision_read(label) matches Some((name, rev)) ==> name.len() > 0 && rev.len() > 0,
{
}

/// Snap is asked for every revision, the disabled ones too.
pub proof fn law_every_revision_is_asked_for()
    ensures
        list_all_argv() == seq!["snap"@].push("list"@).push("--all"@),
{
    assert(list_all_argv() =~= seq!["snap"@].push("list"@).push("--all"@));
}

} // verus!

//! What is ticked in a checklist, and what has to be typed before it is dealt
//! with.

use vstd::prelude::*;

use crate::item::{groups, Group, GroupModel, Risk};
use crate::output::{count_label, counted};
use crate::text;

verus! {

broadcast use vstd::seq::group_seq_axioms;

// ------------------------------------------------------------------- the ticks

/// Where the candidate is that `k` others come before, from group `g` on.
pub open spec fn place(list: Seq<GroupModel>, g: int, k: int) -> Option<(usize, usize)>
    decreases list.len() - g,
{
    if g < 0 || g >= list.len() || k < 0 {
        None
    } else if k < list[g].candidates.len() {
        Some((g as usize, k as usize))
    } else {
        place(list, g + 1, k - list[g].candidates.len())
    }
}

fn find_place(list: &Vec<Group>, k: usize) -> (r: Option<(usize, usize)>)
    ensures
        r == place(groups(list@), 0, k as int),
        r matches Some(p) ==> p.0 < list@.len() && p.1 < list@[p.0 as int].candidates@.len(),
{
    let ghost all = groups(list@);
    let mut left: usize = k;
    let mut g: usize = 0;
    while g < list.len()
        invariant
            g <= list.len(),
            all == groups(list@),
            place(all, 0, k as int) == place(all, g as int, left as int),
        decreases list.len() - g,
    {
        assert(all[g as int] == list@[g as int]@);
        let n: usize = list[g].candidates.len();
        assert(all[g as int].candidates.len() == n);
        if left < n {
            return Some((g, left));
        }
        left -= n;
        g += 1;
    }
    None
}

pub open spec fn whitelisted(list: Seq<GroupModel>, p: (usize, usize)) -> bool {
    list[p.0 as int].candidates[p.1 as int].whitelisted
}

/// What the first `n` numbers tick. Candidates are numbered from 1 through
/// all groups. A whitelisted one is never ticked, and none is ticked twice.
pub open spec fn ticked(list: Seq<GroupModel>, numbers: Seq<usize>, n: int) -> Seq<(usize, usize)>
    decreases n,
{
    if n <= 0 {
        Seq::empty()
    } else {
        let before = ticked(list, numbers, n - 1);
        match place(list, 0, numbers[n - 1] - 1) {
            Some(p) => if whitelisted(list, p) || before.contains(p) {
                before
            } else {
                before.push(p)
            },
            None => before,
        }
    }
}

/// Whether every one of the first `n` numbers stands for a candidate.
pub open spec fn all_there(list: Seq<GroupModel>, numbers: Seq<usize>, n: int) -> bool {
    forall|i: int| 0 <= i < n ==> place(list, 0, #[trigger] numbers[i] - 1) is Some
}

fn is_among(v: &Vec<(usize, usize)>, p: (usize, usize)) -> (r: bool)
    ensures
        r == v@.contains(p),
{
    let mut i: usize = 0;
    while i < v.len()
        invariant
            i <= v.len(),
            forall|k: int| 0 <= k < i ==> v@[k] != p,
        decreases v.len() - i,
    {
        if v[i].0 == p.0 && v[i].1 == p.1 {
            assert(v@[i as int] == p);
            return true;
        }
        i += 1;
    }
    false
}

/// The places of the numbers that were typed, or the first of them that
/// stands for nothing.
pub fn tick(list: &Vec<Group>, numbers: &Vec<usize>) -> (r: Result<Vec<(usize, usize)>, usize>)
    ensures
        match r {
            Ok(selection) => {
                &&& all_there(groups(list@), numbers@, numbers@.len() as int)
                &&& selection@ == ticked(groups(list@), numbers@, numbers@.len() as int)
            },
            Err(number) => exists|i: int|
                {
                    &&& 0 <= i < numbers@.len()
                    &&& #[trigger] numbers@[i] == number
                    &&& place(groups(list@), 0, number - 1) is None
                    &&& all_there(groups(list@), numbers@, i)
                },
        },
{
    let ghost all = groups(list@);
    let mut out: Vec<(usize, usize)> = Vec::new();
    let mut i: usize = 0;
    assert(out@ =~= Seq::empty());
    while i < numbers.len()
        invariant
            i <= numbers.len(),
            all == groups(list@),
            all_there(all, numbers@, i as int),
            out@ == ticked(all, numbers@, i as int),
        decreases numbers.len() - i,
    {
        let number: usize = numbers[i];
        if number == 0 {
            return Err(number);
        }
        match find_place(list, number - 1) {
            Some(p) => {
                let group = &list[p.0];
                assert(all[p.0 as int] == group@);
                assert(group@.candidates[p.1 as int] == group.candidates@[p.1 as int]@);
                if !group.candidates[p.1].whitelisted && !is_among(&out, p) {
                    out.push(p);
                }
            },
            None => {
                return Err(number);
            },
        }
        i += 1;
    }
    Ok(out)
}

// -------------------------------------------------------------- what is demanded

/// How many of the first `n` places are in groups of this risk.
pub open spec fn at_risk(
    list: Seq<GroupModel>,
    selection: Seq<(usize, usize)>,
    n: int,
    risk: Risk,
) -> nat
    decreases n,
{
    if n <= 0 {
        0
    } else {
        let g = selection[n - 1].0 as int;
        at_risk(list, selection, n - 1, risk) + (if g < list.len() && list[g].risk == risk {
            1nat
        } else {
            0nat
        })
    }
}

fn count_at_risk(list: &Vec<Group>, selection: &Vec<(usize, usize)>, risk: Risk) -> (r: usize)
    ensures
        r == at_risk(groups(list@), selection@, selection@.len() as int, risk),
{
    let ghost all = groups(list@);
    let mut count: usize = 0;
    let mut i: usize = 0;
    while i < selection.len()
        invariant
            i <= selection.len(),
            count <= i,
            all == groups(list@),
            count == at_risk(all, selection@, i as int, risk),
        decreases selection.len() - i,
    {
        let g: usize = selection[i].0;
        if g < list.len() {
            assert(all[g as int] == list@[g as int]@);
            if list[g].risk == risk {
                count += 1;
            }
        }
        i += 1;
    }
    count
}

/// What has to be typed before a selection is dealt with: the exact number of
/// its items if any of them is Risky, else `y`.
pub open spec fn password(list: Seq<GroupModel>, selection: Seq<(usize, usize)>) -> Seq<char> {
    if at_risk(list, selection, selection.len() as int, Risk::Risky) > 0 {
        text::decimal(selection.len())
    } else {
        "y"@
    }
}

/// What is said of a selection before it is confirmed: Moderate items are
/// called out, and so are Risky ones.
pub open spec fn warnings(list: Seq<GroupModel>, selection: Seq<(usize, usize)>) -> Seq<char> {
    let n = selection.len() as int;
    risk_line(at_risk(list, selection, n, Risk::Moderate), "Moderate: "@) + risk_line(
        at_risk(list, selection, n, Risk::Risky),
        "Risky: "@,
    )
}

pub open spec fn risk_line(n: nat, tag: Seq<char>) -> Seq<char> {
    if n == 0 {
        Seq::empty()
    } else {
        tag + counted(n, "item"@) + "\n"@
    }
}

/// What a selection is asked to be confirmed with, and what is said of it
/// before.
pub fn demand(list: &Vec<Group>, selection: &Vec<(usize, usize)>) -> (r: (String, String))
    ensures
        r.0@ == warnings(groups(list@), selection@),
        r.1@ == password(groups(list@), selection@),
{
    let moderate = count_at_risk(list, selection, Risk::Moderate);
    let risky = count_at_risk(list, selection, Risk::Risky);
    let mut said = line_of(moderate, "Moderate: ");
    said.append(line_of(risky, "Risky: ").as_str());
    if risky > 0 {
        (said, text::decimal_text(selection.len() as u64))
    } else {
        (said, "y".to_owned())
    }
}

fn line_of(n: usize, tag: &str) -> (r: String)
    ensures
        r@ == risk_line(n as nat, tag@),
{
    if n == 0 {
        String::new()
    } else {
        text::concat3(tag, count_label(n, "item").as_str(), "\n")
    }
}

/// Whether what was typed confirms the selection.
pub fn confirmed(list: &Vec<Group>, selection: &Vec<(usize, usize)>, typed: &str) -> (r: bool)
    ensures
        r == (text::trim(typed@) == password(groups(list@), selection@)),
{
    let (_, wanted) = demand(list, selection);
    text::same(text::trimmed(typed).as_str(), wanted.as_str())
}

// ------------------------------------------------------------------------- laws

proof fn lemma_at_risk(
    list: Seq<GroupModel>,
    selection: Seq<(usize, usize)>,
    n: int,
    risk: Risk,
    i: int,
)
    requires
        0 <= i < n <= selection.len(),
        selection[i].0 < list.len(),
        list[selection[i].0 as int].risk == risk,
    ensures
        at_risk(list, selection, n, risk) > 0,
    decreases n,
{
    if i < n - 1 {
        lemma_at_risk(list, selection, n - 1, risk, i);
    }
}

/// A selection with a Risky item in it is confirmed by the exact number of
/// its items and by nothing else.
pub proof fn law_risky_selections_need_their_size(
    list: Seq<GroupModel>,
    selection: Seq<(usize, usize)>,
    i: int,
)
    requires
        0 <= i < selection.len(),
        selection[i].0 < list.len(),
        list[selection[i].0 as int].risk == Risk::Risky,
    ensures
        password(list, selection) == text::decimal(selection.len()),
{
    lemma_at_risk(list, selection, selection.len() as int, Risk::Risky, i);
}

/// A selection with a Moderate item in it is not confirmed unawares: the line
/// that says how many there are comes first.
pub proof fn law_moderate_selections_are_called_out(
    list: Seq<GroupModel>,
    selection: Seq<(usize, usize)>,
    i: int,
)
    requires
        0 <= i < selection.len(),
        selection[i].0 < list.len(),
        list[selection[i].0 as int].risk == Risk::Moderate,
    ensures
        text::starts_with(
            warnings(list, selection),
            "Moderate: "@ + counted(
                at_risk(list, selection, selection.len() as int, Risk::Moderate),
                "item"@,
            ) + "\n"@,
        ),
{
    let n = selection.len() as int;
    lemma_at_risk(list, selection, n, Risk::Moderate, i);
    let line = risk_line(at_risk(list, selection, n, Risk::Moderate), "Moderate: "@);
    assert(warnings(list, selection).subrange(0, line.len() as int) =~= line);
}

/// What is whitelisted is never ticked, and nothing is ticked twice.
pub proof fn law_ticks_spare_the_whitelist(
    list: Seq<GroupModel>,
    numbers: Seq<usize>,
    n: int,
    j: int,
    k: int,
)
    requires
        0 <= j < ticked(list, numbers, n).len(),
        0 <= k < ticked(list, numbers, n).len(),
    ensures
        !whitelisted(list, ticked(list, numbers, n)[k]),
        j != k ==> ticked(list, numbers, n)[j] != ticked(list, numbers, n)[k],
    decreases n,
{
    let before = ticked(list, numbers, n - 1);
    if k < before.len() {
        law_ticks_spare_the_whitelist(list, numbers, n - 1, if j < before.len() {
            j
        } else {
            k
        }, k);
    }
}

/// How many candidates the groups from `from` up to `g` hold.
pub open spec fn held_before(list: Seq<GroupModel>, from: int, g: int) -> nat
    decreases g - from,
{
    if g <= from {
        0
    } else {
        list[from].candidates.len() + held_before(list, from + 1, g)
    }
}

/// Candidates are numbered from one, through all the groups.
pub proof fn law_numbers_run_through_the_groups(list: Seq<GroupModel>, from: int, g: int, c: int)
    requires
        0 <= from <= g < list.len(),
        0 <= c < list[g].candidates.len(),
    ensures
        place(list, from, held_before(list, from, g) + c) == Some((g as usize, c as usize)),
    decreases g - from,
{
    if from < g {
        law_numbers_run_through_the_groups(list, from + 1, g, c);
    }
}

/// A number that stands for a candidate ticks it, unless it is whitelisted;
/// nothing else is ticked, and nothing twice.
pub proof fn law_ticks_are_what_was_numbered(
    list: Seq<GroupModel>,
    numbers: Seq<usize>,
    n: int,
    p: (usize, usize),
)
    requires
        0 <= n <= numbers.len(),
    ensures
        ticked(list, numbers, n).no_duplicates(),
        ticked(list, numbers, n).contains(p) <==> {
            &&& !list[p.0 as int].candidates[p.1 as int].whitelisted
            &&& exists|i: int| 0 <= i < n && place(list, 0, #[trigger] numbers[i] - 1) == Some(p)
        },
    decreases n,
{
    if n > 0 {
        law_ticks_are_what_was_numbered(list, numbers, n - 1, p);
        let before = ticked(list, numbers, n - 1);
        let now = ticked(list, numbers, n);
        let at = place(list, 0, numbers[n - 1] - 1);
        if before.contains(p) {
            let k = choose|k: int| 0 <= k < before.len() && before[k] == p;
            assert(now[k] == p);
        }
        if at == Some(p) && !whitelisted(list, p) && !before.contains(p) {
            assert(now[before.len() as int] == p);
        }
        if now.contains(p) && !before.contains(p) {
            let k = choose|k: int| 0 <= k < now.len() && now[k] == p;
            if k < before.len() {
                assert(before[k] == p);
            }
            assert(place(list, 0, numbers[n - 1] - 1) == Some(p));
        }
        if before.contains(p) {
            let i = choose|i: int|
                0 <= i < n - 1 && place(list, 0, #[trigger] numbers[i] - 1) == Some(p);
            assert(place(list, 0, numbers[i] - 1) == Some(p));
        }
    }
}

} // verus!

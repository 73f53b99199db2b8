//! What a scan offers: candidates, gathered in one group per rule.

use vstd::prelude::*;

use crate::text;

verus! {

#[derive(Debug, Clone, Copy, PartialEq, Eq, PartialOrd, Ord, Structural)]
pub enum Risk {
    Safe,
    Moderate,
    Risky,
}

#[derive(Debug, PartialEq)]
pub struct Candidate {
    pub path: Option<String>,
    pub label: String,
    pub bytes: u64,
    pub selectable: bool,
    pub whitelisted: bool,
}

/// A candidate as a mathematical value.
pub struct CandidateModel {
    pub path: Option<Seq<char>>,
    pub label: Seq<char>,
    pub bytes: u64,
    pub selectable: bool,
    pub whitelisted: bool,
}

impl View for Candidate {
    type V = CandidateModel;

    open spec fn view(&self) -> CandidateModel {
        CandidateModel {
            path: text::opt_text(self.path),
            label: self.label@,
            bytes: self.bytes,
            selectable: self.selectable,
            whitelisted: self.whitelisted,
        }
    }
}

/// A candidate as it starts out: Safe ones can be selected, the others not
/// until somebody opts them in.
pub open spec fn fresh(
    path: Option<Seq<char>>,
    label: Seq<char>,
    bytes: u64,
    risk: Risk,
) -> CandidateModel {
    CandidateModel { path, label, bytes, selectable: risk == Risk::Safe, whitelisted: false }
}

impl Candidate {
    pub fn new(path: Option<String>, label: String, bytes: u64, risk: Risk) -> (r: Candidate)
        ensures
            r@ == fresh(text::opt_text(path), label@, bytes, risk),
    {
        Candidate { path, label, bytes, selectable: risk == Risk::Safe, whitelisted: false }
    }
}

impl Clone for Candidate {
    fn clone(&self) -> (r: Self)
        ensures
            r@ == self@,
    {
        Candidate {
            path: text::copy_opt(&self.path),
            label: self.label.clone(),
            bytes: self.bytes,
            selectable: self.selectable,
            whitelisted: self.whitelisted,
        }
    }
}

/// A `(label, reason)` note on something that is not offered or not done.
pub type Skip = (String, String);

pub open spec fn skip_view(s: Skip) -> (Seq<char>, Seq<char>) {
    (s.0@, s.1@)
}

pub open spec fn skips(v: Seq<Skip>) -> Seq<(Seq<char>, Seq<char>)> {
    Seq::new(v.len(), |i: int| skip_view(v[i]))
}

pub open spec fn candidates(v: Seq<Candidate>) -> Seq<CandidateModel> {
    Seq::new(v.len(), |i: int| v[i]@)
}

/// Whether nobody ticks any of them unless somebody opts in.
pub open spec fn unticked(list: Seq<CandidateModel>) -> bool {
    forall|i: int| 0 <= i < list.len() ==> !(#[trigger] list[i]).selectable
}

#[derive(Debug)]
pub struct Group {
    pub rule_id: String,
    pub title: String,
    pub risk: Risk,
    pub requires_sudo: bool,
    pub candidates: Vec<Candidate>,
    pub skipped: Vec<Skip>,
}

/// A group as a mathematical value.
pub struct GroupModel {
    pub rule_id: Seq<char>,
    pub title: Seq<char>,
    pub risk: Risk,
    pub requires_sudo: bool,
    pub candidates: Seq<CandidateModel>,
    pub skipped: Seq<(Seq<char>, Seq<char>)>,
}

impl View for Group {
    type V = GroupModel;

    open spec fn view(&self) -> GroupModel {
        GroupModel {
            rule_id: self.rule_id@,
            title: self.title@,
            risk: self.risk,
            requires_sudo: self.requires_sudo,
            candidates: candidates(self.candidates@),
            skipped: skips(self.skipped@),
        }
    }
}

pub open spec fn groups(v: Seq<Group>) -> Seq<GroupModel> {
    Seq::new(v.len(), |i: int| v[i]@)
}

pub fn copy_candidates(v: &Vec<Candidate>) -> (r: Vec<Candidate>)
    ensures
        candidates(r@) == candidates(v@),
{
    let mut out: Vec<Candidate> = Vec::new();
    let mut i: usize = 0;
    while i < v.len()
        invariant
            i <= v.len(),
            out.len() == i,
            forall|k: int| 0 <= k < i ==> (#[trigger] out@[k])@ == v@[k]@,
        decreases v.len() - i,
    {
        out.push(v[i].clone());
        i += 1;
    }
    assert(candidates(out@) =~= candidates(v@));
    out
}

pub fn copy_skips(v: &Vec<Skip>) -> (r: Vec<Skip>)
    ensures
        skips(r@) == skips(v@),
{
    let mut out: Vec<Skip> = Vec::new();
    let mut i: usize = 0;
    while i < v.len()
        invariant
            i <= v.len(),
            out.len() == i,
            forall|k: int| 0 <= k < i ==> skip_view(#[trigger] out@[k]) == skip_view(v@[k]),
        decreases v.len() - i,
    {
        out.push((v[i].0.clone(), v[i].1.clone()));
        i += 1;
    }
    assert(skips(out@) =~= skips(v@));
    out
}

impl Clone for Group {
    fn clone(&self) -> (r: Self)
        ensures
            r@ == self@,
    {
        Group {
            rule_id: self.rule_id.clone(),
            title: self.title.clone(),
            risk: self.risk,
            requires_sudo: self.requires_sudo,
            candidates: copy_candidates(&self.candidates),
            skipped: copy_skips(&self.skipped),
        }
    }
}

// ------------------------------------------------------------------------ laws


/// A candidate keeps what it is made of, and is ticked from the start only
/// where deleting it is Safe.
pub proof fn law_only_safe_starts_ticked(
    path: Option<Seq<char>>,
    label: Seq<char>,
    bytes: u64,
    risk: Risk,
)
    ensures
        ({
            let c = fresh(path, label, bytes, risk);
            &&& risk == Risk::Safe ==> c.selectable
            &&& risk == Risk::Moderate || risk == Risk::Risky ==> !c.selectable
            &&& !c.whitelisted
            &&& c.path == path
            &&& c.label == label
            &&& c.bytes == bytes
        }),
{
}

} // verus!

//! What the privileged helper is told, what it checks for itself, and what it
//! answers.

use vstd::prelude::*;

use crate::exec::{goes_on, report_model, report_outcome, since, DeleteModel};
use crate::host::Host;
use crate::rules::{
    expand_all, expanded_all, models, registry, registry_table, Rule, RuleModel,
};
use crate::safety::deleter::DeleteReport;
use crate::safety::protected::{
    refusal_text, validate_deletable, verdict, SafetyEnv, Tier,
};
use crate::text;
use crate::text::{concat2, concat4};

verus! {

broadcast use vstd::seq::group_seq_axioms;

#[derive(Debug, Clone, PartialEq)]
pub struct HelperOp {
    pub rule_id: String,
    pub path: String,
    pub expected_dev: u64,
    pub expected_ino: u64,
}

#[derive(Debug, Clone, PartialEq)]
pub struct Manifest {
    pub run_id: String,
    /// The invoking user's root and home, carried across the `sudo` boundary:
    /// the helper's own environment is root's and must not be trusted.
    pub root: String,
    pub home: String,
    pub ops: Vec<HelperOp>,
}

#[derive(Debug, Clone, PartialEq)]
pub struct HelperResult {
    pub rule_id: String,
    pub path: String,
    pub bytes_freed: u64,
    pub outcome: String,
}

/// The first rule with this id from `from` on.
pub open spec fn rule_at(rules: Seq<RuleModel>, id: Seq<char>, from: int) -> Option<int>
    decreases rules.len() - from,
{
    if from < 0 || from >= rules.len() {
        None
    } else if rules[from].id == id {
        Some(from)
    } else {
        rule_at(rules, id, from + 1)
    }
}

pub fn find_rule(rules: &Vec<Rule>, id: &str) -> (r: Option<usize>)
    ensures
        match r {
            Some(k) => rule_at(models(rules@), id@, 0) == Some(k as int) && k < rules.len(),
            None => rule_at(models(rules@), id@, 0) is None,
        },
{
    let ghost all = models(rules@);
    let mut i: usize = 0;
    while i < rules.len()
        invariant
            i <= rules.len(),
            all == models(rules@),
            rule_at(all, id@, 0) == rule_at(all, id@, i as int),
        decreases rules.len() - i,
    {
        assert(all[i as int] == rules@[i as int]@);
        if text::same(rules[i].id, id) {
            return Some(i);
        }
        i += 1;
    }
    None
}

/// Why the helper refuses an op, or `None` if it does not. The path must
/// still be the one that was selected, by device and inode, its rule must be
/// known, and it must pass every check of that rule's deletions again.
pub open spec fn helper_verdict(
    op: &HelperOp,
    rules: Seq<RuleModel>,
    env: &SafetyEnv,
    host: &Host,
) -> Option<Seq<char>> {
    match host.found(op.path@) {
        None => Some("cannot stat "@ + op.path@ + ": "@ + host.stat_error(op.path@)),
        Some(entry) => if entry.dev != op.expected_dev || entry.ino != op.expected_ino {
            Some(op.path@ + " changed since it was selected (dev/ino mismatch)"@)
        } else {
            match rule_at(rules, op.rule_id@, 0) {
                None => Some("unknown rule id: "@ + op.rule_id@),
                Some(k) => match verdict(
                    op.path@,
                    expanded_all(rules[k].allowed_prefixes, env.root@, env.home@),
                    Tier::System,
                    env,
                    host,
                ) {
                    Some(refusal) => Some(refusal_text(refusal)),
                    None => None,
                },
            }
        },
    }
}

pub open spec fn reason(r: Result<(), String>) -> Option<Seq<char>> {
    match r {
        Ok(_) => None,
        Err(e) => Some(e@),
    }
}

pub fn helper_validate_op(op: &HelperOp, rules: &Vec<Rule>, env: &SafetyEnv, host: &Host) -> (r:
    Result<(), String>)
    ensures
        reason(r) == helper_verdict(op, models(rules@), env, host),
{
    let entry = match host.find(op.path.as_str()) {
        Some(entry) => entry,
        None => {
            let why = host.why_no_stat(op.path.as_str());
            return Err(concat4("cannot stat ", op.path.as_str(), ": ", why.as_str()));
        },
    };
    if entry.dev != op.expected_dev || entry.ino != op.expected_ino {
        return Err(
            concat2(op.path.as_str(), " changed since it was selected (dev/ino mismatch)"),
        );
    }
    let k = match find_rule(rules, op.rule_id.as_str()) {
        Some(k) => k,
        None => {
            return Err(concat2("unknown rule id: ", op.rule_id.as_str()));
        },
    };
    assert(models(rules@)[k as int] == rules@[k as int]@);
    let allowed = expand_all(&rules[k].allowed_prefixes, env.root.as_str(), env.home.as_str());
    match validate_deletable(op.path.as_str(), &allowed, Tier::System, env, host) {
        Ok(_) => Ok(()),
        Err(refusal) => Err(refusal.message()),
    }
}

/// What the helper answers for an op that it refused.
pub fn refused_result(op: &HelperOp, reason: &str) -> (r: HelperResult)
    ensures
        r.rule_id@ == op.rule_id@,
        r.path@ == op.path@,
        r.bytes_freed == 0,
        r.outcome@ == "refused: "@ + reason@,
{
    HelperResult {
        rule_id: op.rule_id.clone(),
        path: op.path.clone(),
        bytes_freed: 0,
        outcome: concat2("refused: ", reason),
    }
}

/// What the helper answers for an op that it carried out.
pub fn deleted_result(op: &HelperOp, report: &DeleteReport) -> (r: HelperResult)
    ensures
        r.rule_id@ == op.rule_id@,
        r.path@ == op.path@,
        (DeleteModel { bytes_freed: r.bytes_freed, outcome: r.outcome@ }) == report_model(
            report.bytes_freed,
            report.errors@,
        ),
{
    let outcome = report_outcome(report);
    HelperResult {
        rule_id: op.rule_id.clone(),
        path: op.path.clone(),
        bytes_freed: outcome.bytes_freed,
        outcome: outcome.outcome,
    }
}

/// The environment that the helper checks against: root and home of the
/// manifest, never of its own process.
pub open spec fn helper_env(manifest: &Manifest, mount_points: Vec<String>, euid: u32) -> SafetyEnv {
    SafetyEnv { root: manifest.root, home: manifest.home, mount_points, euid }
}

pub fn safety_env_from_manifest(manifest: &Manifest, mount_points: Vec<String>, euid: u32) -> (r:
    SafetyEnv)
    ensures
        r == helper_env(manifest, mount_points, euid),
{
    SafetyEnv {
        root: manifest.root.clone(),
        home: manifest.home.clone(),
        mount_points,
        euid,
    }
}

// ------------------------------------------------------------------ the helper

/// One use of the helper's hands, and what came of it.
pub enum HelperTouch {
    Look { path: Seq<char>, host: Host },
    Delete { path: Seq<char>, report: DeleteReport },
    Tell { result: HelperResult, answer: Result<(), String> },
}

/// Touches the machine for the helper, and remembers how. Nothing is promised
/// of what comes of it.
pub trait HelperHands {
    /// Every use so far, oldest first.
    ///
    /// The log is for proofs and no part of the running program. A type that
    /// Verus does not see takes over this default and keeps nothing.
    closed spec fn helper_touches(&self) -> Seq<HelperTouch> {
        Seq::empty()
    }

    /// The disk as it is right now, as far as deleting `path` is concerned.
    fn look(&mut self, path: &str) -> (r: Host)
        ensures
            final(self).helper_touches() == old(self).helper_touches().push(
                (HelperTouch::Look { path: path@, host: r }),
            ),
    ;

    /// Deletes a tree.
    fn delete_tree(&mut self, path: &str) -> (r: DeleteReport)
        ensures
            final(self).helper_touches() == old(self).helper_touches().push(
                (HelperTouch::Delete { path: path@, report: r }),
            ),
    ;

    /// Passes a result on to the one who asked.
    fn tell(&mut self, result: &HelperResult) -> (r: Result<(), String>)
        ensures
            final(self).helper_touches() == old(self).helper_touches().push(
                (HelperTouch::Tell { result: *result, answer: r }),
            ),
    ;
}

/// Whether a result says this of an op.
pub open spec fn says(result: HelperResult, op: &HelperOp, outcome: DeleteModel) -> bool {
    &&& result.rule_id@ == op.rule_id@
    &&& result.path@ == op.path@
    &&& result.bytes_freed == outcome.bytes_freed
    &&& result.outcome@ == outcome.outcome
}

/// Whether these touches attend to an op: the path is looked at, it is
/// deleted exactly if that look clears it, and what came of it is told.
/// `error` is why it could not be told, if it could not.
pub open spec fn attended(
    op: &HelperOp,
    rules: Seq<RuleModel>,
    env: &SafetyEnv,
    touches: Seq<HelperTouch>,
    error: Option<Seq<char>>,
) -> bool {
    &&& touches.len() > 0
    &&& touches[0] is Look
    &&& touches[0]->Look_path == op.path@
    &&& touches.last() is Tell
    &&& error == reason(touches.last()->answer)
    &&& match helper_verdict(op, rules, env, &touches[0]->host) {
        Some(reason) => {
            &&& touches.len() == 2
            &&& says(
                touches.last()->result,
                op,
                DeleteModel { bytes_freed: 0, outcome: "refused: "@ + reason },
            )
        },
        None => {
            &&& touches.len() == 3
            &&& touches[1] is Delete
            &&& touches[1]->Delete_path == op.path@
            &&& says(
                touches.last()->result,
                op,
                report_model(touches[1]->report.bytes_freed, touches[1]->report.errors@),
            )
        },
    }
}

/// Whether these touches attend to the first `n` ops, one after another, and
/// all that came of them was told.
pub open spec fn worked_through(
    ops: Seq<HelperOp>,
    n: int,
    rules: Seq<RuleModel>,
    env: &SafetyEnv,
    touches: Seq<HelperTouch>,
) -> bool
    decreases n,
{
    if n <= 0 {
        touches.len() == 0
    } else {
        exists|t: int|
            {
                &&& 0 <= t <= touches.len()
                &&& worked_through(ops, n - 1, rules, env, #[trigger] touches.take(t))
                &&& attended(&ops[n - 1], rules, env, touches.skip(t), None)
            }
    }
}

/// Whether the work ended at an op whose result could not be told.
pub open spec fn broken_off(
    ops: Seq<HelperOp>,
    rules: Seq<RuleModel>,
    env: &SafetyEnv,
    touches: Seq<HelperTouch>,
    error: Seq<char>,
) -> bool {
    exists|n: int, t: int|
        {
            &&& 0 <= n < ops.len()
            &&& 0 <= t <= touches.len()
            &&& #[trigger] worked_through(ops, n, rules, env, #[trigger] touches.take(t))
            &&& attended(&ops[n], rules, env, touches.skip(t), Some(error))
        }
}

/// What working through a manifest comes to: nothing at all without root
/// privilege, else every op up to the first whose result cannot be told.
pub open spec fn helped(
    manifest: &Manifest,
    mount_points: Vec<String>,
    euid: u32,
    touches: Seq<HelperTouch>,
    error: Option<Seq<char>>,
) -> bool {
    let ops = manifest.ops@;
    let rules = registry_table(true);
    let env = helper_env(manifest, mount_points, euid);
    if euid != 0 {
        touches.len() == 0 && error == Some(NOT_ROOT@)
    } else {
        match error {
            None => worked_through(ops, ops.len() as int, rules, &env, touches),
            Some(e) => broken_off(ops, rules, &env, touches, e),
        }
    }
}

pub const NOT_ROOT: &'static str = "badger __helper must run as root (invoked internally via sudo)";

/// Only root has the helper's work done.
pub fn helper_permitted(euid: u32) -> (r: Result<(), String>)
    ensures
        reason(r) == (if euid == 0 {
            None
        } else {
            Some(NOT_ROOT@)
        }),
{
    if euid == 0 {
        Ok(())
    } else {
        Err(NOT_ROOT.to_owned())
    }
}

/// Checks one op, carries it out if it is cleared, and tells what came of it.
fn attend<H: HelperHands>(hands: &mut H, op: &HelperOp, rules: &Vec<Rule>, env: &SafetyEnv) -> (r:
    Result<(), String>)
    ensures
        goes_on((old(hands).helper_touches(), final(hands).helper_touches())),
        attended(
            op,
            models(rules@),
            env,
            since((old(hands).helper_touches(), final(hands).helper_touches())),
            reason(r),
        ),
{
    let ghost before = hands.helper_touches();
    let host = hands.look(op.path.as_str());
    let ghost looked = hands.helper_touches();
    let told = match helper_validate_op(op, rules, env, &host) {
        Ok(_) => {
            let report = hands.delete_tree(op.path.as_str());
            deleted_result(op, &report)
        },
        Err(why) => refused_result(op, why.as_str()),
    };
    let ghost acted = hands.helper_touches();
    let r = hands.tell(&told);
    proof {
        let after = hands.helper_touches();
        let n = before.len() as int;
        assert(after.take(n) =~= before);
        assert(after.skip(n)[0] == looked.last());
        assert(after.skip(n).last() == after.last());
        if acted.len() == n + 2 {
            assert(after.skip(n)[1] == acted.last());
        }
    }
    r
}

/// Works through a manifest. Every rule is known to the helper, the
/// experimental ones too: it only looks up where a rule may delete. A result
/// that cannot be told ends the work.
pub fn helper_main<H: HelperHands>(
    hands: &mut H,
    manifest: &Manifest,
    mount_points: Vec<String>,
    euid: u32,
) -> (r: Result<(), String>)
    ensures
        goes_on((old(hands).helper_touches(), final(hands).helper_touches())),
        helped(
            manifest,
            mount_points,
            euid,
            since((old(hands).helper_touches(), final(hands).helper_touches())),
            reason(r),
        ),
{
    let ghost before = hands.helper_touches();
    let ghost n = before.len() as int;
    assert(before.take(n) =~= before);
    assert(before.skip(n) =~= Seq::empty());
    if let Err(e) = helper_permitted(euid) {
        return Err(e);
    }
    let env = safety_env_from_manifest(manifest, mount_points, euid);
    let rules = registry(true);
    let mut i: usize = 0;
    while i < manifest.ops.len()
        invariant
            i <= manifest.ops.len(),
            euid == 0,
            before == old(hands).helper_touches(),
            n == before.len(),
            models(rules@) == registry_table(true),
            env == helper_env(manifest, mount_points, euid),
            goes_on((before, hands.helper_touches())),
            worked_through(
                manifest.ops@,
                i as int,
                registry_table(true),
                &env,
                hands.helper_touches().skip(n),
            ),
        decreases manifest.ops.len() - i,
    {
        let ghost had = hands.helper_touches();
        let told = attend(hands, &manifest.ops[i], &rules, &env);
        proof {
            let all = hands.helper_touches();
            let t = had.len() - n;
            assert(all.take(n) =~= all.take(had.len() as int).take(n));
            assert(all.skip(n).take(t) =~= all.take(had.len() as int).skip(n));
            assert(all.skip(n).skip(t) =~= all.skip(had.len() as int));
        }
        if let Err(e) = told {
            return Err(e);
        }
        i += 1;
    }
    Ok(())
}

/// Whether the deletion at `k` was cleared: right before it the same path was
/// looked at, for an op that asks for its deletion, and nothing that was seen
/// speaks against it.
pub open spec fn helper_cleared(
    ops: Seq<HelperOp>,
    rules: Seq<RuleModel>,
    env: &SafetyEnv,
    touches: Seq<HelperTouch>,
    k: int,
) -> bool {
    &&& k > 0
    &&& touches[k - 1] is Look
    &&& touches[k - 1]->Look_path == touches[k]->Delete_path
    &&& exists|j: int|
        {
            &&& 0 <= j < ops.len()
            &&& (#[trigger] ops[j]).path@ == touches[k]->Delete_path
            &&& helper_verdict(&ops[j], rules, env, &touches[k - 1]->host) is None
        }
}

proof fn lemma_worked_through_cleared(
    ops: Seq<HelperOp>,
    n: int,
    rules: Seq<RuleModel>,
    env: &SafetyEnv,
    touches: Seq<HelperTouch>,
    k: int,
)
    requires
        n <= ops.len(),
        worked_through(ops, n, rules, env, touches),
        0 <= k < touches.len(),
        touches[k] is Delete,
    ensures
        helper_cleared(ops, rules, env, touches, k),
    decreases n,
{
    let t = choose|t: int|
        {
            &&& 0 <= t <= touches.len()
            &&& worked_through(ops, n - 1, rules, env, #[trigger] touches.take(t))
            &&& attended(&ops[n - 1], rules, env, touches.skip(t), None)
        };
    if k < t {
        lemma_worked_through_cleared(ops, n - 1, rules, env, touches.take(t), k);
    } else {
        assert(touches.skip(t)[k - t] == touches[k]);
        assert(touches.skip(t)[0] == touches[t]);
    }
}

/// The helper deletes a tree only where the manifest asks for it, and only
/// right after a fresh look at it that clears it. Without root privilege it
/// deletes nothing.
pub proof fn law_the_helper_deletes_only_what_is_cleared(
    manifest: &Manifest,
    mount_points: Vec<String>,
    euid: u32,
    touches: Seq<HelperTouch>,
    error: Option<Seq<char>>,
    k: int,
)
    requires
        helped(manifest, mount_points, euid, touches, error),
        0 <= k < touches.len(),
        touches[k] is Delete,
    ensures
        euid == 0,
        helper_cleared(
            manifest.ops@,
            registry_table(true),
            &helper_env(manifest, mount_points, euid),
            touches,
            k,
        ),
{
    let ops = manifest.ops@;
    let rules = registry_table(true);
    let env = helper_env(manifest, mount_points, euid);
    match error {
        None => lemma_worked_through_cleared(ops, ops.len() as int, rules, &env, touches, k),
        Some(e) => {
            let (n, t) = choose|n: int, t: int|
                {
                    &&& 0 <= n < ops.len()
                    &&& 0 <= t <= touches.len()
                    &&& #[trigger] worked_through(ops, n, rules, &env, #[trigger] touches.take(t))
                    &&& attended(&ops[n], rules, &env, touches.skip(t), Some(e))
                };
            if k < t {
                lemma_worked_through_cleared(ops, n, rules, &env, touches.take(t), k);
            } else {
                assert(touches.skip(t)[k - t] == touches[k]);
                assert(touches.skip(t)[0] == touches[t]);
            }
        },
    }
}

/// What the helper clears is what was selected, by device and inode, and a
/// rule that it knows may delete it, checked against the root and the home of
/// the one who asked.
pub proof fn law_the_helper_clears_only_what_was_selected(
    op: &HelperOp,
    rules: Seq<RuleModel>,
    env: &SafetyEnv,
    host: &Host,
)
    requires
        helper_verdict(op, rules, env, host) is None,
    ensures
        host.found(op.path@) matches Some(entry) && entry.dev == op.expected_dev && entry.ino
            == op.expected_ino,
        exists|k: int|
            0 <= k < rules.len() && (#[trigger] rules[k]).id == op.rule_id@ && verdict(
                op.path@,
                expanded_all(rules[k].allowed_prefixes, env.root@, env.home@),
                Tier::System,
                env,
                host,
            ) is None,
{
    lemma_rule_at(rules, op.rule_id@, 0);
}

proof fn lemma_rule_at(rules: Seq<RuleModel>, id: Seq<char>, from: int)
    requires
        0 <= from,
    ensures
        rule_at(rules, id, from) matches Some(k) ==> from <= k < rules.len() && rules[k].id == id,
    decreases rules.len() - from,
{
    if from < rules.len() && rules[from].id != id {
        lemma_rule_at(rules, id, from + 1);
    }
}

// ------------------------------------------------------------------------ laws


/// The helper deletes a path only where it is still what was selected, by
/// device and inode, its rule is known, and it may be deleted with root's
/// power in the places of that rule; and it does delete it there.
pub proof fn law_the_helper_trusts_nothing(
    op: &HelperOp,
    rules: Seq<RuleModel>,
    env: &SafetyEnv,
    host: &Host,
    k: int,
)
    requires
        0 <= k <= rules.len(),
        forall|j: int| 0 <= j < k ==> (#[trigger] rules[j]).id != op.rule_id@,
        k < rules.len() ==> rules[k].id == op.rule_id@,
    ensures
        helper_verdict(op, rules, env, host) is None <==> {
            &&& host.found(op.path@) is Some
            &&& host.found(op.path@)->0.dev == op.expected_dev
            &&& host.found(op.path@)->0.ino == op.expected_ino
            &&& k < rules.len()
            &&& verdict(
                op.path@,
                expanded_all(rules[k].allowed_prefixes, env.root@, env.home@),
                Tier::System,
                env,
                host,
            ) is None
        },
{
    lemma_first_rule(rules, op.rule_id@, k, 0);
}

proof fn lemma_first_rule(rules: Seq<RuleModel>, id: Seq<char>, k: int, from: int)
    requires
        0 <= from <= k <= rules.len(),
        forall|j: int| 0 <= j < k ==> (#[trigger] rules[j]).id != id,
        k < rules.len() ==> rules[k].id == id,
    ensures
        k < rules.len() ==> rule_at(rules, id, from) == Some(k),
        k == rules.len() ==> rule_at(rules, id, from) is None,
    decreases k - from,
{
    if from < k {
        lemma_first_rule(rules, id, k, from + 1);
    }
}

} // verus!

//! Carrying out what was selected.

use vstd::prelude::*;

use crate::config::Config;
use crate::ctx::Ctx;
use crate::host::Host;
use crate::item::{
    candidates, groups, skips, Candidate, CandidateModel, Group, GroupModel, Risk, Skip,
};
use crate::privilege;
use crate::privilege::{HelperOp, HelperResult, Manifest};
use crate::rules::{
    cmds, command, expand_all, expanded_all, moderate, models, optimize, snap, snapshots, Action,
    CmdModel, CmdSpec, Commands, RefusingCommands, Rule, RuleModel, SelectedCommands,
};
use crate::runner::{reply, CmdOutput, CommandRunner, Exchange, Reply};
use crate::safety::deleter::DeleteReport;
use crate::safety::journal;
use crate::safety::journal::{all_stamped, stamp, AuditLog, Entry, Record, RecordModel};
use crate::safety::protected::{
    refusal_text, validate_deletable, verdict, RefusalModel, SafetyEnv,
};
use crate::scan::{tier_for, tier_of};
use crate::snapper::asked;
use crate::text;
use crate::text::{concat2, concat3, concat4};

verus! {

broadcast use vstd::seq::group_seq_axioms;

/// Whether one log goes on where the other ends.
pub open spec fn goes_on<A>(log: (Seq<A>, Seq<A>)) -> bool {
    &&& log.1.len() >= log.0.len()
    &&& log.1.take(log.0.len() as int) == log.0
}

/// What came in between.
pub open spec fn since<A>(log: (Seq<A>, Seq<A>)) -> Seq<A> {
    log.1.skip(log.0.len() as int)
}

// -------------------------------------------------------------------- outcomes

#[derive(Debug, PartialEq)]
pub struct DeleteOutcome {
    pub bytes_freed: u64,
    pub outcome: String,
}

pub struct DeleteModel {
    pub bytes_freed: u64,
    pub outcome: Seq<char>,
}

impl View for DeleteOutcome {
    type V = DeleteModel;

    open spec fn view(&self) -> DeleteModel {
        DeleteModel { bytes_freed: self.bytes_freed, outcome: self.outcome@ }
    }
}

pub open spec fn outcomes(v: Seq<DeleteOutcome>) -> Seq<DeleteModel> {
    Seq::new(v.len(), |i: int| v[i]@)
}

#[derive(Debug, PartialEq)]
pub struct RunOutcome {
    pub outcome: String,
    pub skipped: bool,
}

pub struct RunModel {
    pub outcome: Seq<char>,
    pub skipped: bool,
}

impl View for RunOutcome {
    type V = RunModel;

    open spec fn view(&self) -> RunModel {
        RunModel { outcome: self.outcome@, skipped: self.skipped }
    }
}

/// One path that needs root privilege to delete, with the device and inode
/// it had when it was selected (for the privileged helper's own check) and
/// its estimated size (for dry runs, which never talk to the helper).
#[derive(Debug, PartialEq)]
pub struct PrivilegedDelete {
    pub rule_id: String,
    pub path: String,
    pub expected_dev: u64,
    pub expected_ino: u64,
    pub estimated_bytes: u64,
}

pub struct OpModel {
    pub rule_id: Seq<char>,
    pub path: Seq<char>,
    pub expected_dev: u64,
    pub expected_ino: u64,
    pub estimated_bytes: u64,
}

impl View for PrivilegedDelete {
    type V = OpModel;

    open spec fn view(&self) -> OpModel {
        OpModel {
            rule_id: self.rule_id@,
            path: self.path@,
            expected_dev: self.expected_dev,
            expected_ino: self.expected_ino,
            estimated_bytes: self.estimated_bytes,
        }
    }
}

pub open spec fn ops_view(v: Seq<PrivilegedDelete>) -> Seq<OpModel> {
    Seq::new(v.len(), |i: int| v[i]@)
}

/// Something an effector was asked to do, and what came of it.
pub enum Act {
    Delete {
        requires_sudo: bool,
        allowed: Seq<Seq<char>>,
        path: Seq<char>,
        estimated_bytes: u64,
        outcome: DeleteModel,
    },
    Run { cmd: CmdModel, outcome: RunModel },
    Privileged { run_id: Seq<char>, ops: Seq<OpModel>, outcomes: Seq<DeleteModel> },
}

/// A command that was only asked for its answer, and how many acts had been
/// done by then.
pub struct Question {
    pub after: nat,
    pub exchange: Exchange,
}

/// What an effector that acts for real was set up with: where it works, how
/// much its hands and its runner had done before, and the answers that its
/// runner was given beforehand.
pub struct Setup {
    pub ctx: Ctx,
    pub touches: nat,
    pub exchanges: nat,
    pub prepared: Seq<(Vec<String>, CmdOutput)>,
}

/// Carries out one selected action. An effector remembers what it was asked
/// and what came of it, and stays true to that. `delete` takes the privilege
/// and the prefixes rather than a rule, so that callers without a rule of
/// their own can drive the same effector.
pub trait Effector {
    /// Everything asked so far, oldest first.
    spec fn acts(&self) -> Seq<Act>;

    /// What it was set up with, where it acts for real.
    spec fn setup(&self) -> Option<Setup>;

    /// Everything asked on the side so far, oldest first.
    spec fn questions(&self) -> Seq<Question>;

    /// Whether what was done is what the acts say.
    spec fn sound(&self) -> bool;

    fn delete(
        &mut self,
        requires_sudo: bool,
        allowed: &Vec<String>,
        path: &str,
        estimated_bytes: u64,
    ) -> (r: DeleteOutcome)
        ensures
            final(self).acts() == old(self).acts().push(
                (Act::Delete {
                    requires_sudo,
                    allowed: text::texts(allowed@),
                    path: path@,
                    estimated_bytes,
                    outcome: r@,
                }),
            ),
            final(self).setup() == old(self).setup(),
            final(self).questions() == old(self).questions(),
            old(self).sound() ==> final(self).sound(),
    ;

    fn run(&mut self, cmd: &CmdSpec) -> (r: RunOutcome)
        ensures
            final(self).acts() == old(self).acts().push((Act::Run { cmd: cmd@, outcome: r@ })),
            final(self).setup() == old(self).setup(),
            final(self).questions() == old(self).questions(),
            old(self).sound() ==> final(self).sound(),
    ;

    /// Deletes paths that require root privilege, one outcome per path in the
    /// same order.
    fn delete_privileged(&mut self, run_id: &str, ops: &Vec<PrivilegedDelete>) -> (r: Vec<
        DeleteOutcome,
    >)
        ensures
            final(self).acts() == old(self).acts().push(
                (Act::Privileged {
                    run_id: run_id@,
                    ops: ops_view(ops@),
                    outcomes: outcomes(r@),
                }),
            ),
            r@.len() == ops@.len(),
            final(self).setup() == old(self).setup(),
            final(self).questions() == old(self).questions(),
            old(self).sound() ==> final(self).sound(),
    ;
}

/// Whether an effector stays what it was, and sound if it was so.
pub open spec fn steady<E: Effector>(before: E, after: E) -> bool {
    &&& after.setup() == before.setup()
    &&& after.questions() == before.questions()
    &&& before.sound() ==> after.sound()
}

// --------------------------------------------------------------------- dry run

/// Only says what would happen.
pub struct DryRunEffector {
    asked: Ghost<Seq<Act>>,
}

impl DryRunEffector {
    pub fn new() -> (r: DryRunEffector)
        ensures
            r.acts() == Seq::<Act>::empty(),
            r.sound(),
    {
        DryRunEffector { asked: Ghost(Seq::empty()) }
    }
}

/// What a dry run says of a deletion: its estimated size.
pub open spec fn would_delete(bytes: u64) -> DeleteModel {
    DeleteModel { bytes_freed: bytes, outcome: "would delete"@ }
}

/// What a dry run says of a command.
pub open spec fn would_run(cmd: CmdModel) -> RunModel {
    RunModel { outcome: "would run: "@ + text::join(cmd.argv, " "@), skipped: false }
}

/// Whether an act is only told of.
pub open spec fn only_told(act: Act) -> bool {
    match act {
        Act::Delete { requires_sudo: _, allowed: _, path: _, estimated_bytes, outcome } => outcome
            == would_delete(estimated_bytes),
        Act::Run { cmd, outcome } => outcome == would_run(cmd),
        Act::Privileged { run_id: _, ops, outcomes } => outcomes == Seq::new(
            ops.len(),
            |i: int| would_delete(ops[i].estimated_bytes),
        ),
    }
}

/// Whether all of this is only told of.
pub open spec fn all_told(acts: Seq<Act>) -> bool {
    forall|i: int| 0 <= i < acts.len() ==> only_told(#[trigger] acts[i])
}

impl Effector for DryRunEffector {
    closed spec fn acts(&self) -> Seq<Act> {
        self.asked@
    }

    open spec fn setup(&self) -> Option<Setup> {
        None
    }

    open spec fn questions(&self) -> Seq<Question> {
        Seq::empty()
    }

    open spec fn sound(&self) -> bool {
        all_told(self.acts())
    }

    fn delete(
        &mut self,
        requires_sudo: bool,
        allowed: &Vec<String>,
        path: &str,
        estimated_bytes: u64,
    ) -> (r: DeleteOutcome)
        ensures
            r@ == would_delete(estimated_bytes),
    {
        let r = DeleteOutcome {
            bytes_freed: estimated_bytes,
            outcome: "would delete".to_owned(),
        };
        self.asked = Ghost(
            self.asked@.push(
                Act::Delete {
                    requires_sudo,
                    allowed: text::texts(allowed@),
                    path: path@,
                    estimated_bytes,
                    outcome: r@,
                },
            ),
        );
        r
    }

    fn run(&mut self, cmd: &CmdSpec) -> (r: RunOutcome)
        ensures
            r@ == would_run(cmd@),
    {
        let argv = text::join_texts(&cmd.argv, " ");
        let r = RunOutcome { outcome: concat2("would run: ", argv.as_str()), skipped: false };
        self.asked = Ghost(self.asked@.push(Act::Run { cmd: cmd@, outcome: r@ }));
        r
    }

    fn delete_privileged(&mut self, run_id: &str, ops: &Vec<PrivilegedDelete>) -> (r: Vec<
        DeleteOutcome,
    >)
        ensures
            outcomes(r@) == Seq::new(
                ops@.len(),
                |i: int| would_delete(ops_view(ops@)[i].estimated_bytes),
            ),
    {
        let mut out: Vec<DeleteOutcome> = Vec::new();
        let mut i: usize = 0;
        while i < ops.len()
            invariant
                i <= ops.len(),
                out.len() == i,
                forall|k: int|
                    0 <= k < i ==> (#[trigger] out@[k])@ == would_delete(ops@[k].estimated_bytes),
            decreases ops.len() - i,
        {
            out.push(
                DeleteOutcome {
                    bytes_freed: ops[i].estimated_bytes,
                    outcome: "would delete".to_owned(),
                },
            );
            i += 1;
        }
        assert(outcomes(out@) =~= Seq::new(
            ops@.len(),
            |i: int| would_delete(ops_view(ops@)[i].estimated_bytes),
        ));
        self.asked = Ghost(
            self.asked@.push(
                Act::Privileged {
                    run_id: run_id@,
                    ops: ops_view(ops@),
                    outcomes: outcomes(out@),
                },
            ),
        );
        out
    }
}

// ------------------------------------------------------------------ for real

pub const SANDBOX_SKIP: &'static str = "skipped: sudo is never run in a sandbox";

/// What is seen of the machine right before a deletion.
pub struct Sight {
    pub mount_points: Vec<String>,
    pub euid: u32,
    pub host: Host,
}

/// One use of the hands, and what came of it.
pub enum Touch {
    Look { path: Seq<char>, allowed: Seq<Seq<char>>, answer: Result<Sight, String> },
    Delete { path: Seq<char>, report: DeleteReport },
    Ask { manifest: Manifest, answer: Result<Vec<HelperResult>, String> },
}

/// Touches the machine for an effector that acts for real, and remembers how.
/// Nothing is promised of what comes of it.
pub trait Hands {
    /// Every use so far, oldest first.
    ///
    /// The log is for proofs and no part of the running program. A type that
    /// Verus does not see takes over this default and keeps nothing.
    closed spec fn touches(&self) -> Seq<Touch> {
        Seq::empty()
    }

    /// The mounts and the disk as they are right now, as far as deleting
    /// `path` inside `allowed` is concerned.
    fn look(&mut self, path: &str, allowed: &Vec<String>) -> (r: Result<Sight, String>)
        ensures
            final(self).touches() == old(self).touches().push(
                (Touch::Look { path: path@, allowed: text::texts(allowed@), answer: r }),
            ),
    ;

    /// Deletes a tree.
    fn delete_tree(&mut self, path: &str) -> (r: DeleteReport)
        ensures
            final(self).touches() == old(self).touches().push(
                (Touch::Delete { path: path@, report: r }),
            ),
    ;

    /// Has the privileged helper work through a manifest.
    fn ask_helper(&mut self, manifest: &Manifest) -> (r: Result<Vec<HelperResult>, String>)
        ensures
            final(self).touches() == old(self).touches().push(
                (Touch::Ask { manifest: *manifest, answer: r }),
            ),
    ;
}

/// Acts for real.
pub struct RealEffector<'a, R: CommandRunner, H: Hands> {
    ctx: &'a Ctx,
    runner: R,
    hands: H,
    start: Ghost<(nat, nat)>,
    asked: Ghost<Seq<Act>>,
}

/// The outcome of a command that was run.
pub open spec fn reply_outcome(reply: Reply) -> RunModel {
    RunModel {
        outcome: match reply {
            Ok(out) => if out.success {
                "ok"@
            } else {
                "error: "@ + text::trim(out.stderr)
            },
            Err(message) => "error: "@ + message,
        },
        skipped: false,
    }
}

/// The argv of a command, with `sudo` in front where it needs it.
pub open spec fn full_argv(cmd: CmdModel) -> Seq<Seq<char>> {
    if cmd.sudo {
        seq!["sudo"@] + cmd.argv
    } else {
        cmd.argv
    }
}

/// The errors of a deletion, each with its path.
pub open spec fn error_lines(errors: Seq<(String, String)>) -> Seq<Seq<char>> {
    Seq::new(errors.len(), |i: int| errors[i].0@ + ": "@ + errors[i].1@)
}

pub open spec fn report_model(bytes_freed: u64, errors: Seq<(String, String)>) -> DeleteModel {
    DeleteModel {
        bytes_freed,
        outcome: if errors.len() == 0 {
            "ok"@
        } else {
            "error: "@ + text::join(error_lines(errors), "; "@)
        },
    }
}

/// What a deletion came to: `ok`, or every error.
pub fn report_outcome(report: &DeleteReport) -> (r: DeleteOutcome)
    ensures
        r@ == report_model(report.bytes_freed, report.errors@),
{
    if report.errors.len() == 0 {
        return DeleteOutcome { bytes_freed: report.bytes_freed, outcome: "ok".to_owned() };
    }
    let mut lines: Vec<String> = Vec::new();
    let mut i: usize = 0;
    while i < report.errors.len()
        invariant
            i <= report.errors.len(),
            lines.len() == i,
            forall|k: int|
                0 <= k < i ==> (#[trigger] lines@[k])@ == report.errors@[k].0@ + ": "@
                    + report.errors@[k].1@,
        decreases report.errors.len() - i,
    {
        lines.push(concat3(report.errors[i].0.as_str(), ": ", report.errors[i].1.as_str()));
        i += 1;
    }
    assert(text::texts(lines@) =~= error_lines(report.errors@));
    let detail = text::join_texts(&lines, "; ");
    DeleteOutcome {
        bytes_freed: report.bytes_freed,
        outcome: concat2("error: ", detail.as_str()),
    }
}

/// The same words for each of `n` deletions that freed nothing.
pub open spec fn nothing_freed(n: nat, outcome: Seq<char>) -> Seq<DeleteModel> {
    Seq::new(n, |i: int| DeleteModel { bytes_freed: 0, outcome })
}

fn repeat_outcome(n: usize, outcome: &str) -> (r: Vec<DeleteOutcome>)
    ensures
        outcomes(r@) == nothing_freed(n as nat, outcome@),
{
    let mut out: Vec<DeleteOutcome> = Vec::new();
    let mut i: usize = 0;
    while i < n
        invariant
            i <= n,
            out.len() == i,
            forall|k: int|
                0 <= k < i ==> (#[trigger] out@[k])@ == (DeleteModel {
                    bytes_freed: 0,
                    outcome: outcome@,
                }),
        decreases n - i,
    {
        out.push(DeleteOutcome { bytes_freed: 0, outcome: outcome.to_owned() });
        i += 1;
    }
    assert(outcomes(out@) =~= nothing_freed(n as nat, outcome@));
    out
}

/// The words for a path that may not be deleted.
pub open spec fn refused(refusal: RefusalModel) -> DeleteModel {
    DeleteModel { bytes_freed: 0, outcome: "refused: "@ + refusal_text(refusal) }
}

/// What a deletion is judged by: the root and the home directory of the
/// context, and the mounts and the user as they are seen.
pub open spec fn env_seen(ctx: &Ctx, sight: Sight) -> SafetyEnv {
    SafetyEnv {
        root: ctx.root,
        home: ctx.home,
        mount_points: sight.mount_points,
        euid: sight.euid,
    }
}

/// What a sight says against deleting `path`, if anything.
pub open spec fn judged(
    ctx: &Ctx,
    requires_sudo: bool,
    allowed: Seq<Seq<char>>,
    path: Seq<char>,
    sight: Sight,
) -> Option<RefusalModel> {
    verdict(path, allowed, tier_of(requires_sudo), &env_seen(ctx, sight), &sight.host)
}

/// Whether these touches are a deletion. The path is looked at afresh, since
/// the world may have changed since the scan, and it is deleted exactly if
/// that look clears it.
pub open spec fn deletion(
    ctx: &Ctx,
    requires_sudo: bool,
    allowed: Seq<Seq<char>>,
    path: Seq<char>,
    outcome: DeleteModel,
    touches: Seq<Touch>,
) -> bool {
    &&& touches.len() > 0
    &&& touches[0] is Look
    &&& touches[0]->Look_path == path
    &&& touches[0]->allowed == allowed
    &&& match touches[0]->Look_answer {
        Err(e) => touches.len() == 1 && outcome == (DeleteModel {
            bytes_freed: 0,
            outcome: "error: "@ + e@,
        }),
        Ok(sight) => match judged(ctx, requires_sudo, allowed, path, sight) {
            Some(refusal) => touches.len() == 1 && outcome == refused(refusal),
            None => {
                &&& touches.len() == 2
                &&& touches[1] is Delete
                &&& touches[1]->Delete_path == path
                &&& outcome == report_model(
                    touches[1]->report.bytes_freed,
                    touches[1]->report.errors@,
                )
            },
        },
    }
}

/// Whether the helper is told exactly what a privileged batch asks for.
pub open spec fn conveys(manifest: Manifest, ctx: &Ctx, run_id: Seq<char>, ops: Seq<OpModel>) -> bool {
    &&& manifest.run_id@ == run_id
    &&& manifest.root@ == ctx.root@
    &&& manifest.home@ == ctx.home@
    &&& manifest.ops@.len() == ops.len()
    &&& forall|i: int|
        0 <= i < ops.len() ==> (#[trigger] manifest.ops@[i]).rule_id@ == ops[i].rule_id
            && manifest.ops@[i].path@ == ops[i].path && manifest.ops@[i].expected_dev
            == ops[i].expected_dev && manifest.ops@[i].expected_ino == ops[i].expected_ino
}

/// Whether an act was done with exactly these touches and exchanges.
pub open spec fn act_done(ctx: &Ctx, act: Act, touches: Seq<Touch>, exchanges: Seq<Exchange>) -> bool {
    match act {
        Act::Delete { requires_sudo, allowed, path, estimated_bytes: _, outcome } => {
            &&& exchanges.len() == 0
            &&& deletion(ctx, requires_sudo, allowed, path, outcome, touches)
        },
        Act::Run { cmd, outcome } => {
            &&& touches.len() == 0
            &&& if cmd.sudo && ctx.sandboxed {
                &&& exchanges.len() == 0
                &&& outcome == (RunModel { outcome: SANDBOX_SKIP@, skipped: true })
            } else {
                &&& exchanges.len() == 1
                &&& exchanges[0].argv == full_argv(cmd)
                &&& outcome == reply_outcome(exchanges[0].reply)
            }
        },
        Act::Privileged { run_id, ops, outcomes } => {
            &&& exchanges.len() == 0
            &&& if ops.len() == 0 || ctx.sandboxed {
                &&& touches.len() == 0
                &&& outcomes == nothing_freed(ops.len(), SANDBOX_SKIP@)
            } else {
                &&& touches.len() == 1
                &&& touches[0] is Ask
                &&& conveys(touches[0]->manifest, ctx, run_id, ops)
                &&& outcomes == helper_outcomes(touches[0]->Ask_answer, ops.len())
            }
        },
    }
}

/// Whether the acts were done one after another with exactly these touches
/// and exchanges.
pub open spec fn carried_out(
    ctx: &Ctx,
    acts: Seq<Act>,
    touches: Seq<Touch>,
    exchanges: Seq<Exchange>,
) -> bool
    decreases acts.len(),
{
    if acts.len() == 0 {
        touches.len() == 0 && exchanges.len() == 0
    } else {
        exists|t: int, x: int|
            {
                &&& 0 <= t <= touches.len()
                &&& 0 <= x <= exchanges.len()
                &&& carried_out(
                    ctx,
                    acts.drop_last(),
                    #[trigger] touches.take(t),
                    #[trigger] exchanges.take(x),
                )
                &&& act_done(ctx, acts.last(), touches.skip(t), exchanges.skip(x))
            }
    }
}

proof fn lemma_carried_on(
    ctx: &Ctx,
    acts: Seq<Act>,
    touches: Seq<Touch>,
    exchanges: Seq<Exchange>,
    act: Act,
    more_touches: Seq<Touch>,
    more_exchanges: Seq<Exchange>,
)
    requires
        carried_out(ctx, acts, touches, exchanges),
        act_done(ctx, act, more_touches, more_exchanges),
    ensures
        carried_out(ctx, acts.push(act), touches + more_touches, exchanges + more_exchanges),
{
    let t = touches.len() as int;
    let x = exchanges.len() as int;
    assert(acts.push(act).drop_last() =~= acts);
    assert((touches + more_touches).take(t) =~= touches);
    assert((touches + more_touches).skip(t) =~= more_touches);
    assert((exchanges + more_exchanges).take(x) =~= exchanges);
    assert((exchanges + more_exchanges).skip(x) =~= more_exchanges);
}

fn manifest_for(ctx: &Ctx, run_id: &str, ops: &Vec<PrivilegedDelete>) -> (r: Manifest)
    ensures
        conveys(r, ctx, run_id@, ops_view(ops@)),
{
    let mut list: Vec<HelperOp> = Vec::new();
    let mut i: usize = 0;
    while i < ops.len()
        invariant
            i <= ops.len(),
            list.len() == i,
            forall|k: int|
                0 <= k < i ==> (#[trigger] list@[k]).rule_id@ == ops@[k].rule_id@
                    && list@[k].path@ == ops@[k].path@ && list@[k].expected_dev
                    == ops@[k].expected_dev && list@[k].expected_ino == ops@[k].expected_ino,
        decreases ops.len() - i,
    {
        list.push(
            HelperOp {
                rule_id: ops[i].rule_id.clone(),
                path: ops[i].path.clone(),
                expected_dev: ops[i].expected_dev,
                expected_ino: ops[i].expected_ino,
            },
        );
        i += 1;
    }
    Manifest {
        run_id: run_id.to_owned(),
        root: ctx.root.clone(),
        home: ctx.home.clone(),
        ops: list,
    }
}

impl<'a, R: CommandRunner, H: Hands> RealEffector<'a, R, H> {
    pub closed spec fn ctx(&self) -> &'a Ctx {
        self.ctx
    }

    /// Every command run so far.
    pub closed spec fn exchanges(&self) -> Seq<Exchange> {
        self.runner.exchanges()
    }

    /// The answers that its runner was given beforehand.
    pub closed spec fn prepared(&self) -> Seq<(Vec<String>, CmdOutput)> {
        self.runner.prepared()
    }

    /// Everything done by hand so far, oldest first.
    pub closed spec fn touches(&self) -> Seq<Touch> {
        self.hands.touches()
    }

    /// How much had been done by hand, and how many commands had been run,
    /// when it was made.
    pub closed spec fn start(&self) -> (nat, nat) {
        self.start@
    }

    /// What the machine is touched with.
    pub closed spec fn held(&self) -> H {
        self.hands
    }

    pub fn new(ctx: &'a Ctx, runner: R, hands: H) -> (r: RealEffector<'a, R, H>)
        ensures
            r.ctx() == ctx,
            r.held() == hands,
            r.exchanges() == runner.exchanges(),
            r.prepared() == runner.prepared(),
            r.touches() == hands.touches(),
            r.start() == (hands.touches().len(), runner.exchanges().len()),
            r.acts() == Seq::<Act>::empty(),
            r.sound(),
    {
        let ghost touches = hands.touches();
        let ghost exchanges = runner.exchanges();
        assert(touches.skip(touches.len() as int) =~= Seq::empty());
        assert(exchanges.skip(exchanges.len() as int) =~= Seq::empty());
        RealEffector {
            ctx,
            runner,
            hands,
            start: Ghost((touches.len(), exchanges.len())),
            asked: Ghost(Seq::empty()),
        }
    }

    pub fn hands(self) -> (r: H)
        ensures
            r == self.held(),
    {
        self.hands
    }

    proof fn lemma_done(
        before: Self,
        after: Self,
        act: Act,
        more_touches: Seq<Touch>,
        more_exchanges: Seq<Exchange>,
    )
        requires
            after.ctx() == before.ctx(),
            after.start() == before.start(),
            after.prepared() == before.prepared(),
            after.acts() == before.acts().push(act),
            after.touches() == before.touches() + more_touches,
            after.exchanges() == before.exchanges() + more_exchanges,
            act_done(before.ctx(), act, more_touches, more_exchanges),
        ensures
            after.setup() == before.setup(),
            before.sound() ==> after.sound(),
    {
        if before.sound() {
            let (t, x) = before.start();
            lemma_carried_on(
                before.ctx(),
                before.acts(),
                before.touches().skip(t as int),
                before.exchanges().skip(x as int),
                act,
                more_touches,
                more_exchanges,
            );
            assert(after.touches().skip(t as int) =~= before.touches().skip(t as int)
                + more_touches);
            assert(after.exchanges().skip(x as int) =~= before.exchanges().skip(x as int)
                + more_exchanges);
        }
    }
}

impl<'a, R: CommandRunner, H: Hands> Effector for RealEffector<'a, R, H> {
    closed spec fn acts(&self) -> Seq<Act> {
        self.asked@
    }

    open spec fn setup(&self) -> Option<Setup> {
        Some(
            Setup {
                ctx: *self.ctx(),
                touches: self.start().0,
                exchanges: self.start().1,
                prepared: self.prepared(),
            },
        )
    }

    open spec fn questions(&self) -> Seq<Question> {
        Seq::empty()
    }

    /// Its hands and its runner have done exactly what the acts say since it
    /// was made.
    open spec fn sound(&self) -> bool {
        &&& self.start().0 <= self.touches().len()
        &&& self.start().1 <= self.exchanges().len()
        &&& carried_out(
            self.ctx(),
            self.acts(),
            self.touches().skip(self.start().0 as int),
            self.exchanges().skip(self.start().1 as int),
        )
    }

    /// The mounts are read again for every path rather than once for the
    /// batch: they can change during the run.
    fn delete(
        &mut self,
        requires_sudo: bool,
        allowed: &Vec<String>,
        path: &str,
        estimated_bytes: u64,
    ) -> (r: DeleteOutcome)
        ensures
            final(self).ctx() == old(self).ctx(),
            final(self).exchanges() == old(self).exchanges(),
            goes_on((old(self).touches(), final(self).touches())),
            deletion(
                old(self).ctx(),
                requires_sudo,
                text::texts(allowed@),
                path@,
                r@,
                since((old(self).touches(), final(self).touches())),
            ),
    {
        let ghost before = self.touches();
        let r = match self.hands.look(path, allowed) {
            Err(e) => {
                assert(self.touches() =~= before + seq![self.touches().last()]);
                DeleteOutcome { bytes_freed: 0, outcome: concat2("error: ", e.as_str()) }
            },
            Ok(sight) => {
                let ghost seen = sight;
                assert(self.touches() =~= before + seq![self.touches().last()]);
                let Sight { mount_points, euid, host } = sight;
                let env = SafetyEnv {
                    root: self.ctx.root.clone(),
                    home: self.ctx.home.clone(),
                    mount_points,
                    euid,
                };
                assert(env == env_seen(self.ctx, seen));
                match validate_deletable(path, allowed, tier_for(requires_sudo), &env, &host) {
                    Err(refusal) => {
                        let message = refusal.message();
                        DeleteOutcome {
                            bytes_freed: 0,
                            outcome: concat2("refused: ", message.as_str()),
                        }
                    },
                    Ok(_) => {
                        let ghost looked = self.touches();
                        let report = self.hands.delete_tree(path);
                        assert(self.touches() =~= before + seq![
                            looked.last(),
                            self.touches().last(),
                        ]);
                        report_outcome(&report)
                    },
                }
            },
        };
        let ghost act = Act::Delete {
            requires_sudo,
            allowed: text::texts(allowed@),
            path: path@,
            estimated_bytes,
            outcome: r@,
        };
        self.asked = Ghost(self.asked@.push(act));
        proof {
            let more = self.touches().skip(before.len() as int);
            assert(self.touches().take(before.len() as int) =~= before);
            assert(self.touches() =~= before + more);
            assert(self.exchanges() =~= old(self).exchanges() + Seq::empty());
            Self::lemma_done(*old(self), *self, act, more, Seq::empty());
        }
        r
    }

    /// In a sandbox a command that needs root privilege is not run at all.
    fn run(&mut self, cmd: &CmdSpec) -> (r: RunOutcome)
        ensures
            final(self).ctx() == old(self).ctx(),
            final(self).touches() == old(self).touches(),
            if cmd.sudo && old(self).ctx().sandboxed {
                &&& final(self).exchanges() == old(self).exchanges()
                &&& r@ == (RunModel { outcome: SANDBOX_SKIP@, skipped: true })
            } else {
                &&& asked(old(self).exchanges(), final(self).exchanges(), full_argv(cmd@))
                &&& r@ == reply_outcome(final(self).exchanges().last().reply)
            },
    {
        let ghost before = self.exchanges();
        let r = if cmd.sudo && self.ctx.sandboxed {
            RunOutcome { outcome: SANDBOX_SKIP.to_owned(), skipped: true }
        } else {
            let mut argv = text::copies(&cmd.argv);
            if cmd.sudo {
                let ghost had = argv@;
                argv.insert(0, "sudo".to_owned());
                assert(text::texts(argv@) =~= seq!["sudo"@] + text::texts(had));
            }
            let reply = self.runner.run(&argv);
            assert(self.exchanges().drop_last() =~= old(self).exchanges());
            let outcome = match reply {
                Ok(out) => if out.success {
                    "ok".to_owned()
                } else {
                    let stderr = text::trimmed(out.stderr.as_str());
                    concat2("error: ", stderr.as_str())
                },
                Err(message) => concat2("error: ", message.as_str()),
            };
            let r = RunOutcome { outcome, skipped: false };
            assert(r@ == reply_outcome(self.exchanges().last().reply));
            r
        };
        let ghost act = Act::Run { cmd: cmd@, outcome: r@ };
        self.asked = Ghost(self.asked@.push(act));
        proof {
            let more = self.exchanges().skip(before.len() as int);
            assert(self.exchanges() =~= before + more);
            assert(self.touches() =~= old(self).touches() + Seq::empty());
            Self::lemma_done(*old(self), *self, act, Seq::empty(), more);
        }
        r
    }

    /// In a sandbox the helper is not asked at all.
    fn delete_privileged(&mut self, run_id: &str, ops: &Vec<PrivilegedDelete>) -> (r: Vec<
        DeleteOutcome,
    >)
        ensures
            final(self).ctx() == old(self).ctx(),
            final(self).exchanges() == old(self).exchanges(),
            if ops@.len() == 0 || old(self).ctx().sandboxed {
                &&& final(self).touches() == old(self).touches()
                &&& outcomes(r@) == nothing_freed(ops@.len(), SANDBOX_SKIP@)
            } else {
                &&& final(self).touches().len() == old(self).touches().len() + 1
                &&& final(self).touches().drop_last() == old(self).touches()
                &&& final(self).touches().last() matches Touch::Ask { manifest, answer }
                &&& conveys(manifest, old(self).ctx(), run_id@, ops_view(ops@))
                &&& outcomes(r@) == helper_outcomes(answer, ops@.len())
            },
    {
        let ghost before = self.touches();
        let r = if ops.len() == 0 || self.ctx.sandboxed {
            repeat_outcome(ops.len(), SANDBOX_SKIP)
        } else {
            let manifest = manifest_for(self.ctx, run_id, ops);
            let answer = self.hands.ask_helper(&manifest);
            assert(self.touches().drop_last() =~= before);
            privileged_outcomes(&answer, ops.len())
        };
        assert(outcomes(r@).len() == r@.len());
        let ghost act = Act::Privileged {
            run_id: run_id@,
            ops: ops_view(ops@),
            outcomes: outcomes(r@),
        };
        self.asked = Ghost(self.asked@.push(act));
        proof {
            let more = self.touches().skip(before.len() as int);
            assert(self.touches() =~= before + more);
            assert(self.exchanges() =~= old(self).exchanges() + Seq::empty());
            Self::lemma_done(*old(self), *self, act, more, Seq::empty());
        }
        r
    }
}

// -------------------------------------------------------------- asking on the side

/// An effector, and a runner to ask on the side. What is asked changes
/// nothing, so it is asked in a dry run too.
pub struct Informed<R: CommandRunner, E: Effector> {
    runner: R,
    effector: E,
    before: Ghost<Seq<Exchange>>,
    asked: Ghost<Seq<Question>>,
}

/// What was asked and answered, in order.
pub open spec fn answers_to(questions: Seq<Question>) -> Seq<Exchange> {
    Seq::new(questions.len(), |i: int| questions[i].exchange)
}

impl<R: CommandRunner, E: Effector> Informed<R, E> {
    /// Whom it asks.
    pub closed spec fn asks_of(&self) -> R {
        self.runner
    }

    /// Who acts.
    pub closed spec fn acts_by(&self) -> E {
        self.effector
    }

    /// What the runner had been asked when it was taken along.
    pub closed spec fn before(&self) -> Seq<Exchange> {
        self.before@
    }

    pub fn new(runner: R, effector: E) -> (r: Informed<R, E>)
        ensures
            r.asks_of() == runner,
            r.acts_by() == effector,
            r.before() == runner.exchanges(),
            r.questions() == Seq::<Question>::empty(),
            effector.sound() ==> r.sound(),
    {
        let r = Informed {
            runner,
            effector,
            before: Ghost(runner.exchanges()),
            asked: Ghost(Seq::empty()),
        };
        assert(r.before() + answers_to(r.questions()) =~= r.before());
        r
    }

    pub fn ask(&mut self, argv: &Vec<String>) -> (r: Result<CmdOutput, String>)
        ensures
            final(self).questions() == old(self).questions().push(
                (Question {
                    after: old(self).acts().len(),
                    exchange: Exchange { argv: text::texts(argv@), reply: reply(r) },
                }),
            ),
            final(self).asks_of().exchanges() == old(self).asks_of().exchanges().push(
                (Exchange { argv: text::texts(argv@), reply: reply(r) }),
            ),
            final(self).asks_of().prepared() == old(self).asks_of().prepared(),
            final(self).acts_by() == old(self).acts_by(),
            final(self).before() == old(self).before(),
            old(self).sound() ==> final(self).sound(),
    {
        let ghost asked = self.questions();
        let r = self.runner.run(argv);
        self.asked = Ghost(
            self.asked@.push(
                Question {
                    after: self.effector.acts().len(),
                    exchange: Exchange { argv: text::texts(argv@), reply: reply(r) },
                },
            ),
        );
        assert(answers_to(self.questions()) =~= answers_to(asked).push(
            self.questions().last().exchange,
        ));
        assert(self.before() + answers_to(self.questions()) =~= (self.before() + answers_to(
            asked,
        )).push(self.questions().last().exchange));
        r
    }

    pub fn parts(self) -> (r: (R, E))
        ensures
            r.0 == self.asks_of(),
            r.1 == self.acts_by(),
    {
        (self.runner, self.effector)
    }
}

impl<R: CommandRunner, E: Effector> Effector for Informed<R, E> {
    open spec fn acts(&self) -> Seq<Act> {
        self.acts_by().acts()
    }

    open spec fn setup(&self) -> Option<Setup> {
        self.acts_by().setup()
    }

    closed spec fn questions(&self) -> Seq<Question> {
        self.asked@
    }

    /// The runner has been asked exactly the questions, and the effector is
    /// sound.
    open spec fn sound(&self) -> bool {
        &&& self.asks_of().exchanges() == self.before() + answers_to(self.questions())
        &&& self.acts_by().sound()
    }

    fn delete(
        &mut self,
        requires_sudo: bool,
        allowed: &Vec<String>,
        path: &str,
        estimated_bytes: u64,
    ) -> (r: DeleteOutcome)
        ensures
            final(self).asks_of() == old(self).asks_of(),
            final(self).before() == old(self).before(),
    {
        self.effector.delete(requires_sudo, allowed, path, estimated_bytes)
    }

    fn run(&mut self, cmd: &CmdSpec) -> (r: RunOutcome)
        ensures
            final(self).asks_of() == old(self).asks_of(),
            final(self).before() == old(self).before(),
    {
        self.effector.run(cmd)
    }

    fn delete_privileged(&mut self, run_id: &str, ops: &Vec<PrivilegedDelete>) -> (r: Vec<
        DeleteOutcome,
    >)
        ensures
            final(self).asks_of() == old(self).asks_of(),
            final(self).before() == old(self).before(),
    {
        self.effector.delete_privileged(run_id, ops)
    }
}

// ----------------------------------------------------------------------- clearance

/// Whether the deletion at `k` was cleared: right before it the same path was
/// looked at, for an act that asks for its deletion, and nothing that was
/// seen speaks against it, judged by the root and the home directory of the
/// context.
pub open spec fn cleared(ctx: &Ctx, acts: Seq<Act>, touches: Seq<Touch>, k: int) -> bool {
    &&& k > 0
    &&& touches[k - 1] is Look
    &&& touches[k - 1]->Look_path == touches[k]->Delete_path
    &&& touches[k - 1]->Look_answer is Ok
    &&& exists|i: int|
        {
            &&& 0 <= i < acts.len()
            &&& #[trigger] acts[i] is Delete
            &&& acts[i]->path == touches[k]->Delete_path
            &&& acts[i]->allowed == touches[k - 1]->allowed
            &&& judged(
                ctx,
                acts[i]->requires_sudo,
                acts[i]->allowed,
                acts[i]->path,
                touches[k - 1]->Look_answer->Ok_0,
            ) is None
        }
}

/// An effector that acts for real deletes a tree only where it was asked to,
/// and only right after a fresh look at it that clears it.
pub proof fn law_only_cleared_paths_are_deleted(
    ctx: &Ctx,
    acts: Seq<Act>,
    touches: Seq<Touch>,
    exchanges: Seq<Exchange>,
    k: int,
)
    requires
        carried_out(ctx, acts, touches, exchanges),
        0 <= k < touches.len(),
        touches[k] is Delete,
    ensures
        cleared(ctx, acts, touches, k),
    decreases acts.len(),
{
    let (t, x) = choose|t: int, x: int|
        {
            &&& 0 <= t <= touches.len()
            &&& 0 <= x <= exchanges.len()
            &&& carried_out(
                ctx,
                acts.drop_last(),
                #[trigger] touches.take(t),
                #[trigger] exchanges.take(x),
            )
            &&& act_done(ctx, acts.last(), touches.skip(t), exchanges.skip(x))
        };
    let before = acts.drop_last();
    if k < t {
        law_only_cleared_paths_are_deleted(ctx, before, touches.take(t), exchanges.take(x), k);
        let i = choose|i: int|
            {
                &&& 0 <= i < before.len()
                &&& #[trigger] before[i] is Delete
                &&& before[i]->path == touches[k]->Delete_path
                &&& before[i]->allowed == touches[k - 1]->allowed
                &&& judged(
                    ctx,
                    before[i]->requires_sudo,
                    before[i]->allowed,
                    before[i]->path,
                    touches[k - 1]->Look_answer->Ok_0,
                ) is None
            };
        assert(acts[i] == before[i]);
    } else {
        assert(touches.skip(t)[k - t] == touches[k]);
        assert(touches.skip(t)[0] == touches[t]);
        assert(acts[acts.len() - 1] == acts.last());
    }
}

pub const NO_ANSWER: &'static str = "error: the privileged helper gave no answer";

/// What the helper's answer comes to, for `n` paths: its results in order,
/// or the same error for each. A path that it gave no result for is an error
/// too.
pub open spec fn helper_outcomes(answer: Result<Vec<HelperResult>, String>, n: nat) -> Seq<
    DeleteModel,
> {
    match answer {
        Ok(results) => Seq::new(n, |i: int| helper_outcome(results@, i)),
        Err(message) => nothing_freed(n, "error: "@ + message@),
    }
}

pub open spec fn helper_outcome(results: Seq<HelperResult>, i: int) -> DeleteModel {
    if i < results.len() {
        DeleteModel { bytes_freed: results[i].bytes_freed, outcome: results[i].outcome@ }
    } else {
        DeleteModel { bytes_freed: 0, outcome: NO_ANSWER@ }
    }
}

pub fn privileged_outcomes(answer: &Result<Vec<HelperResult>, String>, n: usize) -> (r: Vec<
    DeleteOutcome,
>)
    ensures
        outcomes(r@) == helper_outcomes(*answer, n as nat),
{
    match answer {
        Ok(results) => {
            let mut out: Vec<DeleteOutcome> = Vec::new();
            let mut i: usize = 0;
            while i < n
                invariant
                    i <= n,
                    out.len() == i,
                    forall|k: int|
                        0 <= k < i ==> (#[trigger] out@[k])@ == helper_outcome(results@, k),
                decreases n - i,
            {
                out.push(
                    if i < results.len() {
                        DeleteOutcome {
                            bytes_freed: results[i].bytes_freed,
                            outcome: results[i].outcome.clone(),
                        }
                    } else {
                        DeleteOutcome { bytes_freed: 0, outcome: NO_ANSWER.to_owned() }
                    },
                );
                i += 1;
            }
            assert(outcomes(out@) =~= helper_outcomes(*answer, n as nat));
            out
        },
        Err(message) => {
            let text = concat2("error: ", message.as_str());
            repeat_outcome(n, text.as_str())
        },
    }
}

// -------------------------------------------------------------------- commands

pub open spec fn commands_of(c: Commands, ctx: &Ctx, config: &Config, host: &Host) -> Seq<CmdModel> {
    match c {
        Commands::PacmanCache => command::paccache_commands(config.clean.paccache_keep),
        Commands::Journald => command::journalctl_commands(config.clean.journal_max_size@),
        Commands::FlatpakUnused => moderate::one_command(
            seq!["flatpak"@, "uninstall"@, "--unused"@, "--noninteractive"@],
            false,
            "Remove unused flatpak runtimes"@,
        ),
        Commands::Fstrim => moderate::one_command(
            seq!["fstrim"@, "-av"@],
            true,
            "Trim SSD free space"@,
        ),
        Commands::ResetFailed => optimize::reset_failed_commands(),
        Commands::FontCache => moderate::one_command(
            seq!["fc-cache"@, "-f"@],
            false,
            "Rebuild font cache"@,
        ),
        Commands::DesktopDb => optimize::desktop_db_commands(ctx, host),
        Commands::PacmanFiles => moderate::one_command(
            seq!["pacman"@, "-Fy"@],
            true,
            "Refresh pacman file database"@,
        ),
        Commands::Mirrors => moderate::one_command(
            optimize::mirrors_argv(optimize::mirror_tool_or_reflector(ctx, host)),
            true,
            "Refresh mirror list via "@ + optimize::mirror_tool_or_reflector(ctx, host),
        ),
        Commands::Updatedb => moderate::one_command(
            seq!["updatedb"@],
            true,
            "Update locate database"@,
        ),
    }
}

pub fn build_commands(c: Commands, ctx: &Ctx, config: &Config, host: &Host) -> (r: Vec<CmdSpec>)
    ensures
        cmds(r@) == commands_of(c, ctx, config, host),
{
    match c {
        Commands::PacmanCache => command::pacman_cache_cmd(config),
        Commands::Journald => command::journald_cmd(config),
        Commands::FlatpakUnused => moderate::flatpak_unused_cmd(),
        Commands::Fstrim => optimize::fstrim_cmd(),
        Commands::ResetFailed => optimize::reset_failed_cmd(),
        Commands::FontCache => optimize::font_cache_cmd(),
        Commands::DesktopDb => optimize::desktop_db_cmd(ctx, host),
        Commands::PacmanFiles => optimize::pacman_files_cmd(),
        Commands::Mirrors => optimize::mirrors_cmd(ctx, host),
        Commands::Updatedb => optimize::updatedb_cmd(),
    }
}

pub open spec fn selected_commands(
    c: SelectedCommands,
    ctx: &Ctx,
    host: &Host,
    selected: Seq<CandidateModel>,
) -> Seq<CmdModel> {
    match c {
        SelectedCommands::PacmanOrphans => seq![command::remove_orphans(selected)],
        SelectedCommands::ContainersPrune => moderate::prune_commands(
            moderate::tool(ctx, host),
            moderate::image_ids(selected, selected.len() as int),
            moderate::container_ids(selected, selected.len() as int),
        ),
        SelectedCommands::SnapperCleanup => snapshots::cleanup_commands(
            selected,
            selected.len() as int,
        ),
    }
}

fn build_selected(
    c: SelectedCommands,
    ctx: &Ctx,
    host: &Host,
    selected: &Vec<Candidate>,
) -> (r: Vec<CmdSpec>)
    ensures
        cmds(r@) == selected_commands(c, ctx, host, candidates(selected@)),
{
    assert(candidates(selected@).len() == selected@.len());
    match c {
        SelectedCommands::PacmanOrphans => command::pacman_orphans_cmd(selected),
        SelectedCommands::ContainersPrune => moderate::containers_prune_cmd(ctx, host, selected),
        SelectedCommands::SnapperCleanup => snapshots::cleanup_cmd(selected),
    }
}

pub open spec fn refusing_commands(c: RefusingCommands, selected: Seq<CandidateModel>) -> (
    Seq<CmdModel>,
    Seq<(Seq<char>, Seq<char>)>,
) {
    match c {
        RefusingCommands::OldRevisions => (
            snap::revision_commands(selected, selected.len() as int),
            snap::revision_refusals(selected, selected.len() as int),
        ),
        RefusingCommands::SnapperManual => (
            snapshots::manual_commands(selected),
            snapshots::manual_refusals(selected),
        ),
    }
}

fn build_refusing(c: RefusingCommands, selected: &Vec<Candidate>) -> (r: (Vec<CmdSpec>, Vec<Skip>))
    ensures
        (cmds(r.0@), skips(r.1@)) == refusing_commands(c, candidates(selected@)),
{
    assert(candidates(selected@).len() == selected@.len());
    match c {
        RefusingCommands::OldRevisions => snap::old_revisions_cmd(selected),
        RefusingCommands::SnapperManual => snapshots::manual_cmd(selected),
    }
}

// ------------------------------------------------------------------------ plan

/// One thing to do, or to put on record as not done.
#[derive(Debug, PartialEq)]
pub enum Step {
    Delete { rule_id: String, allowed: Vec<String>, path: String, bytes: u64 },
    Run { rule_id: String, cmd: CmdSpec },
    Refuse { rule_id: String, label: String, reason: String },
    Unstatable { rule_id: String, path: String, reason: String },
}

pub enum StepModel {
    Delete { rule_id: Seq<char>, allowed: Seq<Seq<char>>, path: Seq<char>, bytes: u64 },
    Run { rule_id: Seq<char>, cmd: CmdModel },
    Refuse { rule_id: Seq<char>, label: Seq<char>, reason: Seq<char> },
    Unstatable { rule_id: Seq<char>, path: Seq<char>, reason: Seq<char> },
}

impl View for Step {
    type V = StepModel;

    open spec fn view(&self) -> StepModel {
        match self {
            Step::Delete { rule_id, allowed, path, bytes } => StepModel::Delete {
                rule_id: rule_id@,
                allowed: text::texts(allowed@),
                path: path@,
                bytes: *bytes,
            },
            Step::Run { rule_id, cmd } => StepModel::Run { rule_id: rule_id@, cmd: cmd@ },
            Step::Refuse { rule_id, label, reason } => StepModel::Refuse {
                rule_id: rule_id@,
                label: label@,
                reason: reason@,
            },
            Step::Unstatable { rule_id, path, reason } => StepModel::Unstatable {
                rule_id: rule_id@,
                path: path@,
                reason: reason@,
            },
        }
    }
}

pub open spec fn steps_view(v: Seq<Step>) -> Seq<StepModel> {
    Seq::new(v.len(), |i: int| v[i]@)
}

/// Those of the first `n` candidates that are marked.
pub open spec fn chosen(list: Seq<CandidateModel>, marked: Seq<bool>, n: int) -> Seq<
    CandidateModel,
>
    decreases n,
{
    if n <= 0 {
        Seq::empty()
    } else if marked[n - 1] {
        chosen(list, marked, n - 1).push(list[n - 1])
    } else {
        chosen(list, marked, n - 1)
    }
}

/// The deletions of the marked ones among the first `n`.
pub open spec fn delete_steps(
    list: Seq<CandidateModel>,
    marked: Seq<bool>,
    n: int,
    rule_id: Seq<char>,
    allowed: Seq<Seq<char>>,
) -> Seq<StepModel>
    decreases n,
{
    if n <= 0 {
        Seq::empty()
    } else {
        let before = delete_steps(list, marked, n - 1, rule_id, allowed);
        match list[n - 1].path {
            Some(path) if marked[n - 1] => before.push(
                (StepModel::Delete { rule_id, allowed, path, bytes: list[n - 1].bytes }),
            ),
            _ => before,
        }
    }
}

/// The marked ones among the first `n` that cannot be inspected.
pub open spec fn unstatable_steps(
    list: Seq<CandidateModel>,
    marked: Seq<bool>,
    n: int,
    rule_id: Seq<char>,
    host: &Host,
) -> Seq<StepModel>
    decreases n,
{
    if n <= 0 {
        Seq::empty()
    } else {
        let before = unstatable_steps(list, marked, n - 1, rule_id, host);
        match list[n - 1].path {
            Some(path) if marked[n - 1] && host.found(path) is None => before.push(
                (StepModel::Unstatable { rule_id, path, reason: host.stat_error(path) }),
            ),
            _ => before,
        }
    }
}

/// The others, as they are now, for the helper.
pub open spec fn privileged_ops(
    list: Seq<CandidateModel>,
    marked: Seq<bool>,
    n: int,
    rule_id: Seq<char>,
    host: &Host,
) -> Seq<OpModel>
    decreases n,
{
    if n <= 0 {
        Seq::empty()
    } else {
        let before = privileged_ops(list, marked, n - 1, rule_id, host);
        match list[n - 1].path {
            Some(path) if marked[n - 1] => match host.found(path) {
                Some(entry) => before.push(
                    (OpModel {
                        rule_id,
                        path,
                        expected_dev: entry.dev,
                        expected_ino: entry.ino,
                        estimated_bytes: list[n - 1].bytes,
                    }),
                ),
                None => before,
            },
            _ => before,
        }
    }
}

pub open spec fn run_steps(rule_id: Seq<char>, list: Seq<CmdModel>) -> Seq<StepModel> {
    Seq::new(list.len(), |i: int| StepModel::Run { rule_id, cmd: list[i] })
}

pub open spec fn refuse_steps(rule_id: Seq<char>, notes: Seq<(Seq<char>, Seq<char>)>) -> Seq<
    StepModel,
> {
    Seq::new(
        notes.len(),
        |i: int| StepModel::Refuse { rule_id, label: notes[i].0, reason: notes[i].1 },
    )
}

/// What a rule does about the marked candidates of its group. Nothing is
/// done for a group without a marked candidate.
pub open spec fn group_steps(
    rule: RuleModel,
    list: Seq<CandidateModel>,
    marked: Seq<bool>,
    ctx: &Ctx,
    config: &Config,
    host: &Host,
) -> Seq<StepModel> {
    let n = list.len() as int;
    let picked = chosen(list, marked, n);
    match rule.action {
        Action::DeletePaths => if rule.requires_sudo {
            unstatable_steps(list, marked, n, rule.id, host)
        } else {
            delete_steps(
                list,
                marked,
                n,
                rule.id,
                expanded_all(rule.allowed_prefixes, ctx.root@, ctx.home@),
            )
        },
        Action::Cmd(c) => if picked.len() == 0 {
            Seq::empty()
        } else {
            run_steps(rule.id, commands_of(c, ctx, config, host))
        },
        Action::CmdSelected(c) => if picked.len() == 0 {
            Seq::empty()
        } else {
            run_steps(rule.id, selected_commands(c, ctx, host, picked))
        },
        Action::CmdSelectedWithSkips(c) => if picked.len() == 0 {
            Seq::empty()
        } else {
            run_steps(rule.id, refusing_commands(c, picked).0) + refuse_steps(
                rule.id,
                refusing_commands(c, picked).1,
            )
        },
    }
}

/// What it leaves to the helper.
pub open spec fn group_ops(
    rule: RuleModel,
    list: Seq<CandidateModel>,
    marked: Seq<bool>,
    host: &Host,
) -> Seq<OpModel> {
    if rule.action == Action::DeletePaths && rule.requires_sudo {
        privileged_ops(list, marked, list.len() as int, rule.id, host)
    } else {
        Seq::empty()
    }
}

fn choose_marked(list: &Vec<Candidate>, marked: &Vec<bool>) -> (r: Vec<Candidate>)
    requires
        marked.len() == list.len(),
    ensures
        candidates(r@) == chosen(candidates(list@), marked@, list@.len() as int),
{
    let ghost all = candidates(list@);
    let mut out: Vec<Candidate> = Vec::new();
    let mut i: usize = 0;
    assert(candidates(out@) =~= Seq::empty());
    while i < list.len()
        invariant
            i <= list.len() == marked.len(),
            all == candidates(list@),
            candidates(out@) == chosen(all, marked@, i as int),
        decreases list.len() - i,
    {
        assert(all[i as int] == list@[i as int]@);
        let ghost had = out@;
        if marked[i] {
            let c = list[i].clone();
            out.push(c);
            assert(candidates(out@) =~= candidates(had).push(c@));
        }
        i += 1;
    }
    out
}

fn plan_deletes(list: &Vec<Candidate>, marked: &Vec<bool>, rule_id: &str, allowed: &Vec<String>) -> (r:
    Vec<Step>)
    requires
        marked.len() == list.len(),
    ensures
        steps_view(r@) == delete_steps(
            candidates(list@),
            marked@,
            list@.len() as int,
            rule_id@,
            text::texts(allowed@),
        ),
{
    let ghost all = candidates(list@);
    let ghost prefixes = text::texts(allowed@);
    let mut out: Vec<Step> = Vec::new();
    let mut i: usize = 0;
    assert(steps_view(out@) =~= Seq::empty());
    while i < list.len()
        invariant
            i <= list.len() == marked.len(),
            all == candidates(list@),
            prefixes == text::texts(allowed@),
            steps_view(out@) == delete_steps(all, marked@, i as int, rule_id@, prefixes),
        decreases list.len() - i,
    {
        assert(all[i as int] == list@[i as int]@);
        let ghost had = out@;
        if marked[i] {
            if let Some(path) = &list[i].path {
                let step = Step::Delete {
                    rule_id: rule_id.to_owned(),
                    allowed: text::copies(allowed),
                    path: path.clone(),
                    bytes: list[i].bytes,
                };
                out.push(step);
                assert(steps_view(out@) =~= steps_view(had).push(step@));
            }
        }
        i += 1;
    }
    out
}

fn plan_privileged(list: &Vec<Candidate>, marked: &Vec<bool>, rule_id: &str, host: &Host) -> (r: (
    Vec<Step>,
    Vec<PrivilegedDelete>,
))
    requires
        marked.len() == list.len(),
    ensures
        steps_view(r.0@) == unstatable_steps(
            candidates(list@),
            marked@,
            list@.len() as int,
            rule_id@,
            host,
        ),
        ops_view(r.1@) == privileged_ops(
            candidates(list@),
            marked@,
            list@.len() as int,
            rule_id@,
            host,
        ),
{
    let ghost all = candidates(list@);
    let mut out: Vec<Step> = Vec::new();
    let mut ops: Vec<PrivilegedDelete> = Vec::new();
    let mut i: usize = 0;
    assert(steps_view(out@) =~= Seq::empty());
    assert(ops_view(ops@) =~= Seq::empty());
    while i < list.len()
        invariant
            i <= list.len() == marked.len(),
            all == candidates(list@),
            steps_view(out@) == unstatable_steps(all, marked@, i as int, rule_id@, host),
            ops_view(ops@) == privileged_ops(all, marked@, i as int, rule_id@, host),
        decreases list.len() - i,
    {
        assert(all[i as int] == list@[i as int]@);
        let ghost had = out@;
        let ghost queued = ops@;
        if marked[i] {
            if let Some(path) = &list[i].path {
                match host.find(path.as_str()) {
                    Some(entry) => {
                        let op = PrivilegedDelete {
                            rule_id: rule_id.to_owned(),
                            path: path.clone(),
                            expected_dev: entry.dev,
                            expected_ino: entry.ino,
                            estimated_bytes: list[i].bytes,
                        };
                        ops.push(op);
                        assert(ops_view(ops@) =~= ops_view(queued).push(op@));
                    },
                    None => {
                        let step = Step::Unstatable {
                            rule_id: rule_id.to_owned(),
                            path: path.clone(),
                            reason: host.why_no_stat(path.as_str()),
                        };
                        out.push(step);
                        assert(steps_view(out@) =~= steps_view(had).push(step@));
                    },
                }
            }
        }
        i += 1;
    }
    (out, ops)
}

fn plan_commands(rule_id: &str, list: Vec<CmdSpec>) -> (r: Vec<Step>)
    ensures
        steps_view(r@) == run_steps(rule_id@, cmds(list@)),
{
    let mut out: Vec<Step> = Vec::new();
    let mut i: usize = 0;
    while i < list.len()
        invariant
            i <= list.len(),
            out.len() == i,
            forall|k: int|
                0 <= k < i ==> (#[trigger] out@[k])@ == (StepModel::Run {
                    rule_id: rule_id@,
                    cmd: list@[k]@,
                }),
        decreases list.len() - i,
    {
        out.push(Step::Run { rule_id: rule_id.to_owned(), cmd: list[i].clone() });
        i += 1;
    }
    assert(steps_view(out@) =~= run_steps(rule_id@, cmds(list@)));
    out
}

fn plan_refusals(rule_id: &str, notes: Vec<Skip>) -> (r: Vec<Step>)
    ensures
        steps_view(r@) == refuse_steps(rule_id@, skips(notes@)),
{
    let mut out: Vec<Step> = Vec::new();
    let mut i: usize = 0;
    while i < notes.len()
        invariant
            i <= notes.len(),
            out.len() == i,
            forall|k: int|
                0 <= k < i ==> (#[trigger] out@[k])@ == (StepModel::Refuse {
                    rule_id: rule_id@,
                    label: notes@[k].0@,
                    reason: notes@[k].1@,
                }),
        decreases notes.len() - i,
    {
        out.push(
            Step::Refuse {
                rule_id: rule_id.to_owned(),
                label: notes[i].0.clone(),
                reason: notes[i].1.clone(),
            },
        );
        i += 1;
    }
    assert(steps_view(out@) =~= refuse_steps(rule_id@, skips(notes@)));
    out
}

fn plan_group(
    rule: &Rule,
    list: &Vec<Candidate>,
    marked: &Vec<bool>,
    ctx: &Ctx,
    config: &Config,
    host: &Host,
) -> (r: (Vec<Step>, Vec<PrivilegedDelete>))
    requires
        marked.len() == list.len(),
    ensures
        steps_view(r.0@) == group_steps(
            rule@,
            candidates(list@),
            marked@,
            ctx,
            config,
            host,
        ),
        ops_view(r.1@) == group_ops(rule@, candidates(list@), marked@, host),
{
    let ghost all = candidates(list@);
    assert(all.len() == list@.len());
    let no_steps: Vec<Step> = Vec::new();
    let no_ops: Vec<PrivilegedDelete> = Vec::new();
    assert(steps_view(no_steps@) =~= Seq::empty());
    assert(ops_view(no_ops@) =~= Seq::empty());
    let picked = choose_marked(list, marked);
    assert(candidates(picked@).len() == picked.len());
    match rule.action {
        Action::DeletePaths => if rule.requires_sudo {
            plan_privileged(list, marked, rule.id, host)
        } else {
            let allowed = expand_all(
                &rule.allowed_prefixes,
                ctx.root.as_str(),
                ctx.home.as_str(),
            );
            (plan_deletes(list, marked, rule.id, &allowed), no_ops)
        },
        Action::Cmd(c) => if picked.len() == 0 {
            (no_steps, no_ops)
        } else {
            (plan_commands(rule.id, build_commands(c, ctx, config, host)), no_ops)
        },
        Action::CmdSelected(c) => if picked.len() == 0 {
            (no_steps, no_ops)
        } else {
            (plan_commands(rule.id, build_selected(c, ctx, host, &picked)), no_ops)
        },
        Action::CmdSelectedWithSkips(c) => if picked.len() == 0 {
            (no_steps, no_ops)
        } else {
            let (list, notes) = build_refusing(c, &picked);
            let mut out = plan_commands(rule.id, list);
            let ghost a = out@;
            let mut more = plan_refusals(rule.id, notes);
            let ghost b = more@;
            out.append(&mut more);
            assert(steps_view(out@) =~= steps_view(a) + steps_view(b));
            (out, no_ops)
        },
    }
}

// ----------------------------------------------------------- plan without asking

pub open spec fn selectable_marks(list: Seq<CandidateModel>) -> Seq<bool> {
    Seq::new(list.len(), |i: int| list[i].selectable)
}

/// What is done about a group when nobody was asked: only a Safe one is
/// acted on, and paths that need root privilege are left alone. A command
/// that does not depend on the candidates runs in any case.
pub open spec fn auto_steps(
    rule: RuleModel,
    group: GroupModel,
    ctx: &Ctx,
    config: &Config,
    host: &Host,
) -> Seq<StepModel> {
    if group.risk != Risk::Safe {
        Seq::empty()
    } else {
        match rule.action {
            Action::DeletePaths if rule.requires_sudo => Seq::empty(),
            Action::Cmd(c) => run_steps(rule.id, commands_of(c, ctx, config, host)),
            _ => group_steps(
                rule,
                group.candidates,
                selectable_marks(group.candidates),
                ctx,
                config,
                host,
            ),
        }
    }
}

/// The steps of the first `n` groups. A group whose rule is not known is
/// left alone.
pub open spec fn auto_plan(
    list: Seq<GroupModel>,
    n: int,
    rules: Seq<RuleModel>,
    ctx: &Ctx,
    config: &Config,
    host: &Host,
) -> Seq<StepModel>
    decreases n,
{
    if n <= 0 {
        Seq::empty()
    } else {
        let before = auto_plan(list, n - 1, rules, ctx, config, host);
        match privilege::rule_at(rules, list[n - 1].rule_id, 0) {
            Some(k) => before + auto_steps(rules[k], list[n - 1], ctx, config, host),
            None => before,
        }
    }
}

fn plan_auto(
    list: &Vec<Group>,
    rules: &Vec<Rule>,
    ctx: &Ctx,
    config: &Config,
    host: &Host,
) -> (r: Vec<Step>)
    ensures
        steps_view(r@) == auto_plan(
            groups(list@),
            list@.len() as int,
            models(rules@),
            ctx,
            config,
            host,
        ),
{
    let ghost all = groups(list@);
    let ghost table = models(rules@);
    let mut out: Vec<Step> = Vec::new();
    let mut i: usize = 0;
    assert(steps_view(out@) =~= Seq::empty());
    while i < list.len()
        invariant
            i <= list.len(),
            all == groups(list@),
            table == models(rules@),
            steps_view(out@) == auto_plan(all, i as int, table, ctx, config, host),
        decreases list.len() - i,
    {
        assert(all[i as int] == list@[i as int]@);
        let group = &list[i];
        let ghost had = out@;
        if let Some(k) = privilege::find_rule(rules, group.rule_id.as_str()) {
            let rule = &rules[k];
            assert(table[k as int] == rule@);
            let ghost want = auto_steps(rule@, group@, ctx, config, host);
            if group.risk == Risk::Safe {
                match rule.action {
                    Action::DeletePaths if rule.requires_sudo => {
                        assert(steps_view(out@) =~= steps_view(had) + want);
                    },
                    Action::Cmd(c) => {
                        let mut more = plan_commands(
                            rule.id,
                            build_commands(c, ctx, config, host),
                        );
                        let ghost b = more@;
                        out.append(&mut more);
                        assert(steps_view(out@) =~= steps_view(had) + steps_view(b));
                    },
                    _ => {
                        let marked = selectable_list(&group.candidates);
                        let (mut more, _) = plan_group(
                            rule,
                            &group.candidates,
                            &marked,
                            ctx,
                            config,
                            host,
                        );
                        let ghost b = more@;
                        out.append(&mut more);
                        assert(steps_view(out@) =~= steps_view(had) + steps_view(b));
                    },
                }
            } else {
                assert(steps_view(out@) =~= steps_view(had) + want);
            }
            assert(steps_view(out@) == steps_view(had) + want);
        }
        i += 1;
    }
    out
}

fn selectable_list(list: &Vec<Candidate>) -> (r: Vec<bool>)
    ensures
        r@ == selectable_marks(candidates(list@)),
        r.len() == list.len(),
{
    let mut out: Vec<bool> = Vec::new();
    let mut i: usize = 0;
    while i < list.len()
        invariant
            i <= list.len(),
            out.len() == i,
            forall|k: int| 0 <= k < i ==> #[trigger] out@[k] == list@[k].selectable,
        decreases list.len() - i,
    {
        out.push(list[i].selectable);
        i += 1;
    }
    assert(out@ =~= selectable_marks(candidates(list@)));
    out
}

// -------------------------------------------------------- plan for a selection

pub open spec fn selected_marks(
    list: Seq<CandidateModel>,
    group: usize,
    selection: Seq<(usize, usize)>,
) -> Seq<bool> {
    Seq::new(list.len(), |i: int| selection.contains((group, i as usize)))
}

/// The steps of the first `n` groups for a selection, whatever their risk.
pub open spec fn selected_plan(
    list: Seq<GroupModel>,
    n: int,
    selection: Seq<(usize, usize)>,
    rules: Seq<RuleModel>,
    ctx: &Ctx,
    config: &Config,
    host: &Host,
) -> Seq<StepModel>
    decreases n,
{
    if n <= 0 {
        Seq::empty()
    } else {
        let before = selected_plan(list, n - 1, selection, rules, ctx, config, host);
        let cands = list[n - 1].candidates;
        match privilege::rule_at(rules, list[n - 1].rule_id, 0) {
            Some(k) => before + group_steps(
                rules[k],
                cands,
                selected_marks(cands, (n - 1) as usize, selection),
                ctx,
                config,
                host,
            ),
            None => before,
        }
    }
}

/// What is left to the helper: one batch for all groups.
pub open spec fn selected_ops(
    list: Seq<GroupModel>,
    n: int,
    selection: Seq<(usize, usize)>,
    rules: Seq<RuleModel>,
    host: &Host,
) -> Seq<OpModel>
    decreases n,
{
    if n <= 0 {
        Seq::empty()
    } else {
        let before = selected_ops(list, n - 1, selection, rules, host);
        let cands = list[n - 1].candidates;
        match privilege::rule_at(rules, list[n - 1].rule_id, 0) {
            Some(k) => before + group_ops(
                rules[k],
                cands,
                selected_marks(cands, (n - 1) as usize, selection),
                host,
            ),
            None => before,
        }
    }
}

fn is_selected(selection: &Vec<(usize, usize)>, group: usize, candidate: usize) -> (r: bool)
    ensures
        r == selection@.contains((group, candidate)),
{
    let mut i: usize = 0;
    while i < selection.len()
        invariant
            i <= selection.len(),
            forall|k: int| 0 <= k < i ==> #[trigger] selection@[k] != (group, candidate),
        decreases selection.len() - i,
    {
        if selection[i].0 == group && selection[i].1 == candidate {
            assert(selection@[i as int] == (group, candidate));
            return true;
        }
        i += 1;
    }
    false
}

fn selected_list(list: &Vec<Candidate>, group: usize, selection: &Vec<(usize, usize)>) -> (r: Vec<
    bool,
>)
    ensures
        r@ == selected_marks(candidates(list@), group, selection@),
        r.len() == list.len(),
{
    let mut out: Vec<bool> = Vec::new();
    let mut i: usize = 0;
    while i < list.len()
        invariant
            i <= list.len(),
            out.len() == i,
            forall|k: int|
                0 <= k < i ==> #[trigger] out@[k] == selection@.contains((group, k as usize)),
        decreases list.len() - i,
    {
        out.push(is_selected(selection, group, i));
        i += 1;
    }
    assert(out@ =~= selected_marks(candidates(list@), group, selection@));
    out
}

fn plan_selected(
    list: &Vec<Group>,
    selection: &Vec<(usize, usize)>,
    rules: &Vec<Rule>,
    ctx: &Ctx,
    config: &Config,
    host: &Host,
) -> (r: (Vec<Step>, Vec<PrivilegedDelete>))
    ensures
        steps_view(r.0@) == selected_plan(
            groups(list@),
            list@.len() as int,
            selection@,
            models(rules@),
            ctx,
            config,
            host,
        ),
        ops_view(r.1@) == selected_ops(
            groups(list@),
            list@.len() as int,
            selection@,
            models(rules@),
            host,
        ),
{
    let ghost all = groups(list@);
    let ghost table = models(rules@);
    let mut out: Vec<Step> = Vec::new();
    let mut ops: Vec<PrivilegedDelete> = Vec::new();
    let mut i: usize = 0;
    assert(steps_view(out@) =~= Seq::empty());
    assert(ops_view(ops@) =~= Seq::empty());
    while i < list.len()
        invariant
            i <= list.len(),
            all == groups(list@),
            table == models(rules@),
            steps_view(out@) == selected_plan(
                all,
                i as int,
                selection@,
                table,
                ctx,
                config,
                host,
            ),
            ops_view(ops@) == selected_ops(all, i as int, selection@, table, host),
        decreases list.len() - i,
    {
        assert(all[i as int] == list@[i as int]@);
        let group = &list[i];
        let ghost had = out@;
        let ghost queued = ops@;
        if let Some(k) = privilege::find_rule(rules, group.rule_id.as_str()) {
            assert(table[k as int] == rules@[k as int]@);
            let marked = selected_list(&group.candidates, i, selection);
            let (mut more, mut more_ops) = plan_group(
                &rules[k],
                &group.candidates,
                &marked,
                ctx,
                config,
                host,
            );
            let ghost b = more@;
            let ghost c = more_ops@;
            out.append(&mut more);
            ops.append(&mut more_ops);
            assert(steps_view(out@) =~= steps_view(had) + steps_view(b));
            assert(ops_view(ops@) =~= ops_view(queued) + ops_view(c));
        }
        i += 1;
    }
    (out, ops)
}

// ------------------------------------------------------------------- performing

#[derive(Debug, PartialEq)]
pub struct Summary {
    pub bytes_freed: u64,
    pub actions: usize,
    /// Records that could not be written. What they tell of has happened
    /// already, so a failure is noted and never stops the rest.
    pub journal_warnings: Vec<String>,
}

impl Summary {
    pub fn new() -> (r: Summary)
        ensures
            r.bytes_freed == 0,
            r.actions == 0,
            r.journal_warnings@.len() == 0,
    {
        Summary { bytes_freed: 0, actions: 0, journal_warnings: Vec::new() }
    }
}

/// What a step asks of the effector, if anything.
pub open spec fn asks(step: StepModel, act: Act) -> bool {
    match (step, act) {
        (
            StepModel::Delete { rule_id: _, allowed, path, bytes },
            Act::Delete { requires_sudo, allowed: a, path: p, estimated_bytes, outcome: _ },
        ) => !requires_sudo && a == allowed && p == path && estimated_bytes == bytes,
        (StepModel::Run { rule_id: _, cmd }, Act::Run { cmd: c, outcome: _ }) => c == cmd,
        _ => false,
    }
}

pub open spec fn is_act(step: StepModel) -> bool {
    step is Delete || step is Run
}

/// How many of the first `n` steps ask something of the effector.
pub open spec fn act_count(list: Seq<StepModel>, n: int) -> int
    decreases n,
{
    if n <= 0 {
        0
    } else {
        act_count(list, n - 1) + (if is_act(list[n - 1]) {
            1int
        } else {
            0int
        })
    }
}

proof fn lemma_act_count(list: Seq<StepModel>, k: int, n: int)
    requires
        0 <= k <= n,
    ensures
        0 <= act_count(list, k) <= act_count(list, n),
    decreases n,
{
    if k < n {
        lemma_act_count(list, k, n - 1);
    } else if n > 0 {
        lemma_act_count(list, n - 1, n - 1);
    }
}

/// A record of something a command of the program did, made at `ts`.
pub open spec fn run_record(
    ts: Seq<char>,
    command: Seq<char>,
    run_id: Seq<char>,
    rule: Seq<char>,
    action: Seq<char>,
    argv: Option<Seq<Seq<char>>>,
    path: Option<Seq<char>>,
    sudo: bool,
    dry_run: bool,
    bytes_freed: u64,
    outcome: Seq<char>,
) -> RecordModel {
    RecordModel {
        ts,
        run_id,
        cmd: command,
        rule,
        action,
        argv,
        paths: match path {
            Some(p) => Some(seq![p]),
            None => None,
        },
        sudo,
        dry_run,
        bytes_freed,
        outcome,
    }
}

/// What goes on record for a step, given what came of it.
pub open spec fn step_record(
    ts: Seq<char>,
    step: StepModel,
    act: Act,
    command: Seq<char>,
    run_id: Seq<char>,
    dry_run: bool,
) -> RecordModel {
    match step {
        StepModel::Delete { rule_id, allowed: _, path, bytes: _ } => run_record(
            ts,
            command,
            run_id,
            rule_id,
            "delete"@,
            None,
            Some(path),
            false,
            dry_run,
            act->Delete_outcome.bytes_freed,
            act->Delete_outcome.outcome,
        ),
        StepModel::Run { rule_id, cmd } => run_record(
            ts,
            command,
            run_id,
            rule_id,
            "cmd"@,
            Some(cmd.argv),
            None,
            cmd.sudo,
            dry_run,
            0,
            act->Run_outcome.outcome,
        ),
        StepModel::Refuse { rule_id, label, reason } => run_record(
            ts,
            command,
            run_id,
            rule_id,
            "cmd"@,
            None,
            None,
            false,
            dry_run,
            0,
            "skipped: "@ + label + " — "@ + reason,
        ),
        StepModel::Unstatable { rule_id, path, reason } => run_record(
            ts,
            command,
            run_id,
            rule_id,
            "delete"@,
            None,
            Some(path),
            true,
            dry_run,
            0,
            "error: cannot stat "@ + path + ": "@ + reason,
        ),
    }
}

/// Whether the acts and entries are those of the first `n` steps: each step
/// that asks something is one act, in order, and each step is one entry that
/// tells what came of it, and when.
pub open spec fn performed(
    list: Seq<StepModel>,
    n: int,
    acts: Seq<Act>,
    entries: Seq<Entry>,
    command: Seq<char>,
    run_id: Seq<char>,
    dry_run: bool,
) -> bool {
    &&& acts.len() == act_count(list, n)
    &&& entries.len() == n
    &&& all_stamped(entries)
    &&& forall|k: int|
        #![trigger entries[k]]
        0 <= k < n ==> {
            &&& is_act(list[k]) ==> asks(list[k], acts[act_count(list, k)])
            &&& entries[k].record == step_record(
                entries[k].record.ts,
                list[k],
                acts[act_count(list, k)],
                command,
                run_id,
                dry_run,
            )
        }
}

/// The bytes that the records tell of; the largest number there is where
/// they add up to more.
pub open spec fn total_freed(entries: Seq<Entry>) -> u64
    decreases entries.len(),
{
    if entries.len() == 0 {
        0
    } else {
        let sum = total_freed(entries.drop_last()) + entries.last().record.bytes_freed;
        if sum > u64::MAX {
            u64::MAX
        } else {
            sum as u64
        }
    }
}

/// A count, or the largest number there is.
pub open spec fn capped(n: nat) -> usize {
    if n > usize::MAX {
        usize::MAX
    } else {
        n as usize
    }
}

/// The warnings on records that could not be written.
pub open spec fn warnings(entries: Seq<Entry>) -> Seq<Seq<char>>
    decreases entries.len(),
{
    if entries.len() == 0 {
        Seq::empty()
    } else {
        match entries.last().error {
            Some(e) => warnings(entries.drop_last()).push(
                "failed to record audit trail: "@ + e,
            ),
            None => warnings(entries.drop_last()),
        }
    }
}

pub proof fn lemma_warnings_add(a: Seq<Entry>, b: Seq<Entry>)
    ensures
        warnings(a + b) == warnings(a) + warnings(b),
    decreases b.len(),
{
    if b.len() == 0 {
        assert(a + b =~= a);
        assert(warnings(a) + warnings(b) =~= warnings(a));
    } else {
        lemma_warnings_add(a, b.drop_last());
        assert((a + b).drop_last() =~= a + b.drop_last());
        assert(warnings(a + b) =~= warnings(a) + warnings(b));
    }
}

/// What a run comes to, by its records.
pub open spec fn summed_up(summary: Summary, entries: Seq<Entry>) -> bool {
    &&& summary.bytes_freed == total_freed(entries)
    &&& summary.actions == capped(entries.len())
    &&& text::texts(summary.journal_warnings@) == warnings(entries)
}

/// Hands a record to the audit trail and counts it.
fn put_on_record<L: AuditLog>(
    log: &mut L,
    record: &Record,
    summary: &mut Summary,
    Ghost(before): Ghost<Seq<Entry>>,
)
    requires
        summed_up(*old(summary), before),
    ensures
        final(log).entries().len() == old(log).entries().len() + 1,
        final(log).entries().drop_last() == old(log).entries(),
        final(log).entries().last().record == record@,
        final(log).readings() == old(log).readings(),
        summed_up(*final(summary), before.push(final(log).entries().last())),
{
    summary.bytes_freed = summary.bytes_freed.saturating_add(record.bytes_freed);
    summary.actions = summary.actions.saturating_add(1);
    let ghost had = summary.journal_warnings@;
    let r = log.append(record);
    assert(log.entries().drop_last() =~= old(log).entries());
    if let Err(e) = &r {
        summary.journal_warnings.push(concat2("failed to record audit trail: ", e.as_str()));
        assert(text::texts(summary.journal_warnings@) =~= text::texts(had).push(
            "failed to record audit trail: "@ + e@,
        ));
    }
    assert(before.push(log.entries().last()).drop_last() =~= before);
}

/// Performs the steps one by one, and puts each on record.
pub fn perform<E: Effector, L: AuditLog>(
    list: &Vec<Step>,
    effector: &mut E,
    log: &mut L,
    command: &str,
    run_id: &str,
    dry_run: bool,
) -> (r: Summary)
    ensures
        final(effector).acts().len() >= old(effector).acts().len(),
        final(effector).acts().take(old(effector).acts().len() as int) == old(effector).acts(),
        steady(*old(effector), *final(effector)),
        final(log).entries().len() >= old(log).entries().len(),
        final(log).entries().take(old(log).entries().len() as int) == old(log).entries(),
        final(log).readings() == old(log).readings(),
        performed(
            steps_view(list@),
            list@.len() as int,
            final(effector).acts().skip(old(effector).acts().len() as int),
            final(log).entries().skip(old(log).entries().len() as int),
            command@,
            run_id@,
            dry_run,
        ),
        summed_up(r, final(log).entries().skip(old(log).entries().len() as int)),
{
    let ghost models = steps_view(list@);
    let ghost a0 = effector.acts();
    let ghost e0 = log.entries();
    let ghost na = a0.len() as int;
    let ghost ne = e0.len() as int;
    let mut summary = Summary::new();
    let mut i: usize = 0;
    assert(text::texts(summary.journal_warnings@) =~= Seq::empty());
    assert(a0.skip(na) =~= Seq::empty());
    assert(e0.skip(ne) =~= Seq::empty());
    assert(a0.take(na) =~= a0);
    assert(e0.take(ne) =~= e0);
    while i < list.len()
        invariant
            i <= list.len(),
            models == steps_view(list@),
            na == a0.len(),
            ne == e0.len(),
            na <= effector.acts().len(),
            ne <= log.entries().len(),
            effector.acts().take(na) == a0,
            steady(*old(effector), *effector),
            log.entries().take(ne) == e0,
            log.readings() == old(log).readings(),
            performed(
                models,
                i as int,
                effector.acts().skip(na),
                log.entries().skip(ne),
                command@,
                run_id@,
                dry_run,
            ),
            summed_up(summary, log.entries().skip(ne)),
        decreases list.len() - i,
    {
        assert(models[i as int] == list@[i as int]@);
        let ghost acts1 = effector.acts();
        let ghost entries1 = log.entries();
        let record = match &list[i] {
            Step::Delete { rule_id, allowed, path, bytes } => {
                let outcome = effector.delete(false, allowed, path.as_str(), *bytes);
                let record = Record::now(
                    run_id.to_owned(),
                    command.to_owned(),
                    rule_id.clone(),
                    "delete".to_owned(),
                    None,
                    Some(text::list1(path.as_str())),
                    false,
                    dry_run,
                    outcome.bytes_freed,
                    outcome.outcome,
                );
                assert(effector.acts().skip(na) =~= acts1.skip(na).push(effector.acts().last()));
                record
            },
            Step::Run { rule_id, cmd } => {
                let outcome = effector.run(cmd);
                let record = Record::now(
                    run_id.to_owned(),
                    command.to_owned(),
                    rule_id.clone(),
                    "cmd".to_owned(),
                    Some(text::copies(&cmd.argv)),
                    None,
                    cmd.sudo,
                    dry_run,
                    0,
                    outcome.outcome,
                );
                assert(effector.acts().skip(na) =~= acts1.skip(na).push(effector.acts().last()));
                record
            },
            Step::Refuse { rule_id, label, reason } => Record::now(
                run_id.to_owned(),
                command.to_owned(),
                rule_id.clone(),
                "cmd".to_owned(),
                None,
                None,
                false,
                dry_run,
                0,
                concat4("skipped: ", label.as_str(), " — ", reason.as_str()),
            ),
            Step::Unstatable { rule_id, path, reason } => Record::now(
                run_id.to_owned(),
                command.to_owned(),
                rule_id.clone(),
                "delete".to_owned(),
                None,
                Some(text::list1(path.as_str())),
                true,
                dry_run,
                0,
                concat4("error: cannot stat ", path.as_str(), ": ", reason.as_str()),
            ),
        };
        let ghost acts2 = effector.acts().skip(na);
        proof {
            let at = act_count(models, i as int);
            assert(stamp(record@.ts));
            assert(record@ == step_record(
                record@.ts,
                models[i as int],
                acts2[at],
                command@,
                run_id@,
                dry_run,
            ));
            assert(is_act(models[i as int]) ==> asks(models[i as int], acts2[at]));
            assert(effector.acts().take(na) =~= a0) by {
                assert(effector.acts().take(na) =~= acts1.take(na));
            }
        }
        put_on_record(log, &record, &mut summary, Ghost(entries1.skip(ne)));
        proof {
            let entries2 = log.entries();
            let more = entries2.skip(ne);
            assert(more =~= entries1.skip(ne).push(entries2.last())) by {
                assert(entries2 =~= entries2.drop_last().push(entries2.last()));
            }
            assert(entries2.take(ne) =~= e0) by {
                assert(entries2.take(ne) =~= entries2.drop_last().take(ne));
            }
            assert forall|k: int| 0 <= k < more.len() implies stamp(
                (#[trigger] more[k]).record.ts,
            ) by {
                if k < i {
                    assert(more[k] == entries1.skip(ne)[k]);
                }
            }
            assert forall|k: int| #![trigger more[k]] 0 <= k < i + 1 implies {
                &&& is_act(models[k]) ==> asks(models[k], acts2[act_count(models, k)])
                &&& more[k].record == step_record(
                    more[k].record.ts,
                    models[k],
                    acts2[act_count(models, k)],
                    command@,
                    run_id@,
                    dry_run,
                )
            } by {
                if k < i {
                    assert(more[k] == entries1.skip(ne)[k]);
                    lemma_act_count(models, k, k);
                    lemma_act_count(models, k + 1, i as int);
                    let was = acts1.skip(na);
                    if is_act(models[k]) {
                        assert(act_count(models, k) < was.len());
                        assert(acts2[act_count(models, k)] == was[act_count(models, k)]);
                    }
                }
            }
        }
        i += 1;
    }
    summary
}

/// Executes every Safe group's selectable candidates, or its commands.
/// Groups of higher risk are never acted on here: this is what `--yes` does
/// without asking, and it stays Safe by design. Paths that need root
/// privilege are left alone too; only commands may have it, by `sudo`.
pub fn execute<E: Effector, L: AuditLog>(
    list: &Vec<Group>,
    rules: &Vec<Rule>,
    ctx: &Ctx,
    config: &Config,
    host: &Host,
    effector: &mut E,
    log: &mut L,
    run_id: &str,
    dry_run: bool,
) -> (r: Summary)
    ensures
        final(effector).acts().len() >= old(effector).acts().len(),
        final(effector).acts().take(old(effector).acts().len() as int) == old(effector).acts(),
        steady(*old(effector), *final(effector)),
        final(log).entries().len() >= old(log).entries().len(),
        final(log).entries().take(old(log).entries().len() as int) == old(log).entries(),
        final(log).readings() == old(log).readings(),
        ({
            let plan = auto_plan(
                groups(list@),
                list@.len() as int,
                models(rules@),
                ctx,
                config,
                host,
            );
            performed(
                plan,
                plan.len() as int,
                final(effector).acts().skip(old(effector).acts().len() as int),
                final(log).entries().skip(old(log).entries().len() as int),
                "clean"@,
                run_id@,
                dry_run,
            )
        }),
        summed_up(r, final(log).entries().skip(old(log).entries().len() as int)),
{
    let steps = plan_auto(list, rules, ctx, config, host);
    assert(steps_view(steps@).len() == steps@.len());
    perform(&steps, effector, log, "clean", run_id, dry_run)
}

/// What goes on record for a deletion by the helper.
pub open spec fn op_record(
    ts: Seq<char>,
    op: OpModel,
    outcome: DeleteModel,
    run_id: Seq<char>,
    dry_run: bool,
) -> RecordModel {
    run_record(
        ts,
        "clean"@,
        run_id,
        op.rule_id,
        "delete"@,
        None,
        Some(op.path),
        true,
        dry_run,
        outcome.bytes_freed,
        outcome.outcome,
    )
}

/// Whether the acts and entries are those of the steps, followed by one
/// batch for the helper where there is anything for it, with one entry for
/// each path of it.
pub open spec fn performed_with_helper(
    plan: Seq<StepModel>,
    ops: Seq<OpModel>,
    acts: Seq<Act>,
    entries: Seq<Entry>,
    run_id: Seq<char>,
    dry_run: bool,
) -> bool {
    let n = plan.len() as int;
    if ops.len() == 0 {
        performed(plan, n, acts, entries, "clean"@, run_id, dry_run)
    } else {
        &&& acts.len() > 0
        &&& acts.last() is Privileged
        &&& acts.last()->run_id == run_id
        &&& acts.last()->ops == ops
        &&& acts.last()->outcomes.len() == ops.len()
        &&& entries.len() == n + ops.len()
        &&& all_stamped(entries)
        &&& performed(plan, n, acts.drop_last(), entries.take(n), "clean"@, run_id, dry_run)
        &&& forall|k: int|
            #![trigger entries[n + k]]
            0 <= k < ops.len() ==> entries[n + k].record == op_record(
                entries[n + k].record.ts,
                ops[k],
                acts.last()->outcomes[k],
                run_id,
                dry_run,
            )
    }
}

/// Executes exactly the selected candidates, each named by its group and its
/// place in it, whatever the risk of the group: a selection is made item by
/// item. Paths that need root privilege go to the helper in one batch at the
/// end. A command that does not depend on the candidates runs where at least
/// one of its group is selected.
pub fn execute_selected<E: Effector, L: AuditLog>(
    list: &Vec<Group>,
    selection: &Vec<(usize, usize)>,
    rules: &Vec<Rule>,
    ctx: &Ctx,
    config: &Config,
    host: &Host,
    effector: &mut E,
    log: &mut L,
    run_id: &str,
    dry_run: bool,
) -> (r: Summary)
    ensures
        final(effector).acts().len() >= old(effector).acts().len(),
        final(effector).acts().take(old(effector).acts().len() as int) == old(effector).acts(),
        steady(*old(effector), *final(effector)),
        final(log).entries().len() >= old(log).entries().len(),
        final(log).entries().take(old(log).entries().len() as int) == old(log).entries(),
        final(log).readings() == old(log).readings(),
        performed_with_helper(
            selected_plan(
                groups(list@),
                list@.len() as int,
                selection@,
                models(rules@),
                ctx,
                config,
                host,
            ),
            selected_ops(groups(list@), list@.len() as int, selection@, models(rules@), host),
            final(effector).acts().skip(old(effector).acts().len() as int),
            final(log).entries().skip(old(log).entries().len() as int),
            run_id@,
            dry_run,
        ),
        summed_up(r, final(log).entries().skip(old(log).entries().len() as int)),
{
    let ghost na = effector.acts().len() as int;
    let ghost ne = log.entries().len() as int;
    let ghost a0 = effector.acts();
    let ghost e0 = log.entries();
    let (steps, ops) = plan_selected(list, selection, rules, ctx, config, host);
    let ghost plan = steps_view(steps@);
    let ghost batch = ops_view(ops@);
    let ghost n = plan.len() as int;
    let mut summary = perform(&steps, effector, log, "clean", run_id, dry_run);
    if ops.len() == 0 {
        return summary;
    }
    let ghost acts1 = effector.acts();
    let ghost entries1 = log.entries().skip(ne);
    let replies = effector.delete_privileged(run_id, &ops);
    let ghost answers = outcomes(replies@);
    assert(effector.acts().take(na) =~= acts1.take(na));
    assert(effector.acts().skip(na).drop_last() =~= acts1.skip(na));
    assert(entries1.take(n) =~= entries1);
    let mut i: usize = 0;
    while i < ops.len()
        invariant
            0 <= ne <= log.entries().len(),
            i <= ops.len(),
            replies.len() == ops.len(),
            batch == ops_view(ops@),
            answers == outcomes(replies@),
            log.entries().take(ne) == e0,
            log.entries().skip(ne).len() == n + i,
            entries1.len() == n,
            log.entries().skip(ne).take(n) == entries1,
            log.readings() == old(log).readings(),
            all_stamped(log.entries().skip(ne)),
            forall|k: int|
                #![trigger log.entries().skip(ne)[n + k]]
                0 <= k < i ==> log.entries().skip(ne)[n + k].record == op_record(
                    log.entries().skip(ne)[n + k].record.ts,
                    batch[k],
                    answers[k],
                    run_id@,
                    dry_run,
                ),
            summed_up(summary, log.entries().skip(ne)),
        decreases ops.len() - i,
    {
        let record = Record::now(
            run_id.to_owned(),
            "clean".to_owned(),
            ops[i].rule_id.clone(),
            "delete".to_owned(),
            None,
            Some(text::list1(ops[i].path.as_str())),
            true,
            dry_run,
            replies[i].bytes_freed,
            replies[i].outcome.clone(),
        );
        assert(batch[i as int] == ops@[i as int]@);
        assert(answers[i as int] == replies@[i as int]@);
        assert(stamp(record@.ts));
        assert(record@ == op_record(
            record@.ts,
            batch[i as int],
            answers[i as int],
            run_id@,
            dry_run,
        ));
        let ghost before = log.entries();
        put_on_record(log, &record, &mut summary, Ghost(before.skip(ne)));
        proof {
            let after = log.entries();
            assert(after =~= before.push(after.last()));
            assert(after.skip(ne) =~= before.skip(ne).push(after.last()));
            assert(after.take(ne) =~= before.take(ne));
            assert(after.skip(ne).take(n) =~= before.skip(ne).take(n));
            let more = after.skip(ne);
            assert forall|k: int| 0 <= k < more.len() implies stamp(
                (#[trigger] more[k]).record.ts,
            ) by {
                if k < n + i {
                    assert(more[k] == before.skip(ne)[k]);
                }
            }
            assert forall|k: int| #![trigger more[n + k]] 0 <= k < i + 1 implies more[n
                + k].record == op_record(
                more[n + k].record.ts,
                batch[k],
                answers[k],
                run_id@,
                dry_run,
            ) by {
                if k < i {
                    assert(more[n + k] == before.skip(ne)[n + k]);
                }
            }
        }
        i += 1;
    }
    summary
}

/// The deletions of the selected candidates of the first `n` groups.
pub open spec fn selected_deletes(
    list: Seq<GroupModel>,
    n: int,
    selection: Seq<(usize, usize)>,
    allowed: Seq<Seq<char>>,
) -> Seq<StepModel>
    decreases n,
{
    if n <= 0 {
        Seq::empty()
    } else {
        let cands = list[n - 1].candidates;
        selected_deletes(list, n - 1, selection, allowed) + delete_steps(
            cands,
            selected_marks(cands, (n - 1) as usize, selection),
            cands.len() as int,
            list[n - 1].rule_id,
            allowed,
        )
    }
}

/// Deletes exactly the selected candidates, none of which may need root
/// privilege, and only inside the given places. For groups that no rule
/// stands behind.
pub fn execute_deletes<E: Effector, L: AuditLog>(
    list: &Vec<Group>,
    selection: &Vec<(usize, usize)>,
    allowed: &Vec<String>,
    effector: &mut E,
    log: &mut L,
    command: &str,
    run_id: &str,
    dry_run: bool,
) -> (r: Summary)
    ensures
        final(effector).acts().len() >= old(effector).acts().len(),
        final(effector).acts().take(old(effector).acts().len() as int) == old(effector).acts(),
        steady(*old(effector), *final(effector)),
        final(log).entries().len() >= old(log).entries().len(),
        final(log).entries().take(old(log).entries().len() as int) == old(log).entries(),
        final(log).readings() == old(log).readings(),
        ({
            let plan = selected_deletes(
                groups(list@),
                list@.len() as int,
                selection@,
                text::texts(allowed@),
            );
            performed(
                plan,
                plan.len() as int,
                final(effector).acts().skip(old(effector).acts().len() as int),
                final(log).entries().skip(old(log).entries().len() as int),
                command@,
                run_id@,
                dry_run,
            )
        }),
        summed_up(r, final(log).entries().skip(old(log).entries().len() as int)),
{
    let ghost all = groups(list@);
    let ghost prefixes = text::texts(allowed@);
    let mut steps: Vec<Step> = Vec::new();
    let mut i: usize = 0;
    assert(steps_view(steps@) =~= Seq::empty());
    while i < list.len()
        invariant
            i <= list.len(),
            all == groups(list@),
            prefixes == text::texts(allowed@),
            steps_view(steps@) == selected_deletes(all, i as int, selection@, prefixes),
        decreases list.len() - i,
    {
        assert(all[i as int] == list@[i as int]@);
        let group = &list[i];
        let ghost had = steps@;
        let marked = selected_list(&group.candidates, i, selection);
        let mut more = plan_deletes(&group.candidates, &marked, group.rule_id.as_str(), allowed);
        let ghost b = more@;
        assert(candidates(group.candidates@).len() == group.candidates@.len());
        steps.append(&mut more);
        assert(steps_view(steps@) =~= steps_view(had) + steps_view(b));
        i += 1;
    }
    assert(steps_view(steps@).len() == steps@.len());
    perform(&steps, effector, log, command, run_id, dry_run)
}

// ------------------------------------------------------------------------ laws

/// Whether a step concerns a candidate that is marked.
pub open spec fn from_marked(step: StepModel, list: Seq<CandidateModel>, marked: Seq<bool>) -> bool {
    match step {
        StepModel::Delete { rule_id: _, allowed: _, path, bytes } => exists|j: int|
            0 <= j < list.len() && #[trigger] marked[j] && list[j].path == Some(path)
                && list[j].bytes == bytes,
        StepModel::Unstatable { rule_id: _, path, reason: _ } => exists|j: int|
            0 <= j < list.len() && #[trigger] marked[j] && list[j].path == Some(path),
        _ => exists|j: int| 0 <= j < list.len() && #[trigger] marked[j],
    }
}

proof fn lemma_deletes_are_marked(
    list: Seq<CandidateModel>,
    marked: Seq<bool>,
    n: int,
    rule_id: Seq<char>,
    allowed: Seq<Seq<char>>,
    k: int,
)
    requires
        0 <= n <= list.len(),
        0 <= k < delete_steps(list, marked, n, rule_id, allowed).len(),
    ensures
        delete_steps(list, marked, n, rule_id, allowed)[k] is Delete,
        delete_steps(list, marked, n, rule_id, allowed)[k]->Delete_rule_id == rule_id,
        delete_steps(list, marked, n, rule_id, allowed)[k]->allowed == allowed,
        from_marked(delete_steps(list, marked, n, rule_id, allowed)[k], list, marked),
    decreases n,
{
    if n > 0 {
        let before = delete_steps(list, marked, n - 1, rule_id, allowed);
        if k < before.len() {
            lemma_deletes_are_marked(list, marked, n - 1, rule_id, allowed, k);
        } else {
            assert(marked[n - 1]);
        }
    }
}

proof fn lemma_unstatable_are_marked(
    list: Seq<CandidateModel>,
    marked: Seq<bool>,
    n: int,
    rule_id: Seq<char>,
    host: &Host,
    k: int,
)
    requires
        0 <= n <= list.len(),
        0 <= k < unstatable_steps(list, marked, n, rule_id, host).len(),
    ensures
        unstatable_steps(list, marked, n, rule_id, host)[k] is Unstatable,
        unstatable_steps(list, marked, n, rule_id, host)[k]->Unstatable_rule_id == rule_id,
        from_marked(unstatable_steps(list, marked, n, rule_id, host)[k], list, marked),
    decreases n,
{
    if n > 0 {
        let before = unstatable_steps(list, marked, n - 1, rule_id, host);
        if k < before.len() {
            lemma_unstatable_are_marked(list, marked, n - 1, rule_id, host, k);
        } else {
            assert(marked[n - 1]);
        }
    }
}

proof fn lemma_ops_are_marked(
    list: Seq<CandidateModel>,
    marked: Seq<bool>,
    n: int,
    rule_id: Seq<char>,
    host: &Host,
    k: int,
)
    requires
        0 <= n <= list.len(),
        0 <= k < privileged_ops(list, marked, n, rule_id, host).len(),
    ensures
        op_is_marked(privileged_ops(list, marked, n, rule_id, host)[k], list, marked, host),
        privileged_ops(list, marked, n, rule_id, host)[k].rule_id == rule_id,
    decreases n,
{
    if n > 0 {
        let before = privileged_ops(list, marked, n - 1, rule_id, host);
        if k < before.len() {
            lemma_ops_are_marked(list, marked, n - 1, rule_id, host, k);
        } else {
            assert(marked[n - 1]);
        }
    }
}

/// Whether a deletion for the helper concerns a marked candidate, as it was
/// found on disk.
pub open spec fn op_is_marked(
    op: OpModel,
    list: Seq<CandidateModel>,
    marked: Seq<bool>,
    host: &Host,
) -> bool {
    &&& exists|j: int| 0 <= j < list.len() && #[trigger] marked[j] && list[j].path == Some(op.path)
    &&& host.found(op.path) is Some
    &&& op.expected_dev == host.found(op.path)->0.dev
    &&& op.expected_ino == host.found(op.path)->0.ino
}

proof fn lemma_chosen_are_marked(list: Seq<CandidateModel>, marked: Seq<bool>, n: int)
    requires
        0 <= n <= list.len(),
        chosen(list, marked, n).len() > 0,
    ensures
        exists|j: int| 0 <= j < list.len() && #[trigger] marked[j],
    decreases n,
{
    if marked[n - 1] {
        assert(marked[n - 1]);
    } else {
        lemma_chosen_are_marked(list, marked, n - 1);
    }
}

/// The rule that a step is taken for.
pub open spec fn step_rule(step: StepModel) -> Seq<char> {
    match step {
        StepModel::Delete { rule_id, allowed: _, path: _, bytes: _ } => rule_id,
        StepModel::Run { rule_id, cmd: _ } => rule_id,
        StepModel::Refuse { rule_id, label: _, reason: _ } => rule_id,
        StepModel::Unstatable { rule_id, path: _, reason: _ } => rule_id,
    }
}

proof fn lemma_group_steps_are_marked(
    rule: RuleModel,
    list: Seq<CandidateModel>,
    marked: Seq<bool>,
    ctx: &Ctx,
    config: &Config,
    host: &Host,
    k: int,
)
    requires
        0 <= k < group_steps(rule, list, marked, ctx, config, host).len(),
    ensures
        from_marked(group_steps(rule, list, marked, ctx, config, host)[k], list, marked),
        step_rule(group_steps(rule, list, marked, ctx, config, host)[k]) == rule.id,
        group_steps(rule, list, marked, ctx, config, host)[k] is Delete ==> !rule.requires_sudo,
        group_steps(rule, list, marked, ctx, config, host)[k] is Unstatable ==> rule.requires_sudo,
{
    let n = list.len() as int;
    match rule.action {
        Action::DeletePaths => if rule.requires_sudo {
            lemma_unstatable_are_marked(list, marked, n, rule.id, host, k);
        } else {
            lemma_deletes_are_marked(
                list,
                marked,
                n,
                rule.id,
                expanded_all(rule.allowed_prefixes, ctx.root@, ctx.home@),
                k,
            );
        },
        _ => {
            lemma_chosen_are_marked(list, marked, n);
        },
    }
}

/// Whether a step of an unattended run is one that may be taken without
/// asking: it belongs to a Safe group, a path is that of a selectable
/// candidate, and no path needs root privilege.
pub open spec fn unattended(step: StepModel, list: Seq<GroupModel>, rules: Seq<RuleModel>) -> bool {
    exists|i: int|
        {
            &&& 0 <= i < list.len()
            &&& (#[trigger] list[i]).risk == Risk::Safe
            &&& privilege::rule_at(rules, list[i].rule_id, 0) is Some
            &&& ({
                let rule = rules[privilege::rule_at(rules, list[i].rule_id, 0)->0];
                &&& step_rule(step) == rule.id
                &&& step !is Unstatable
                &&& step is Delete ==> !rule.requires_sudo && from_marked(
                    step,
                    list[i].candidates,
                    selectable_marks(list[i].candidates),
                )
            })
        }
}

proof fn lemma_auto_plan(
    list: Seq<GroupModel>,
    n: int,
    rules: Seq<RuleModel>,
    ctx: &Ctx,
    config: &Config,
    host: &Host,
    k: int,
)
    requires
        0 <= n <= list.len(),
        0 <= k < auto_plan(list, n, rules, ctx, config, host).len(),
    ensures
        unattended(auto_plan(list, n, rules, ctx, config, host)[k], list, rules),
    decreases n,
{
    if n > 0 {
        let before = auto_plan(list, n - 1, rules, ctx, config, host);
        if k < before.len() {
            lemma_auto_plan(list, n - 1, rules, ctx, config, host, k);
        } else {
            let group = list[n - 1];
            let rule = rules[privilege::rule_at(rules, group.rule_id, 0)->0];
            let marked = selectable_marks(group.candidates);
            match rule.action {
                Action::Cmd(_) => {},
                _ => {
                    lemma_group_steps_are_marked(
                        rule,
                        group.candidates,
                        marked,
                        ctx,
                        config,
                        host,
                        k - before.len(),
                    );
                    let step = group_steps(rule, group.candidates, marked, ctx, config, host)[k
                        - before.len()];
                    assert(step !is Unstatable) by {
                        if rule.action == Action::DeletePaths {
                            assert(!rule.requires_sudo);
                        }
                    }
                },
            }
            assert(list[n - 1].risk == Risk::Safe);
        }
    }
}

/// An unattended run stays within the Safe groups: every step belongs to
/// one, and a path is deleted only where its candidate is selectable and its
/// rule needs no root privilege.
pub proof fn law_unattended_runs_stay_safe(
    list: Seq<GroupModel>,
    rules: Seq<RuleModel>,
    ctx: &Ctx,
    config: &Config,
    host: &Host,
)
    ensures
        forall|k: int|
            #![trigger auto_plan(list, list.len() as int, rules, ctx, config, host)[k]]
            0 <= k < auto_plan(list, list.len() as int, rules, ctx, config, host).len()
                ==> unattended(
                auto_plan(list, list.len() as int, rules, ctx, config, host)[k],
                list,
                rules,
            ),
{
    let n = list.len() as int;
    assert forall|k: int|
        #![trigger auto_plan(list, n, rules, ctx, config, host)[k]]
        0 <= k < auto_plan(list, n, rules, ctx, config, host).len() implies unattended(
        auto_plan(list, n, rules, ctx, config, host)[k],
        list,
        rules,
    ) by {
        lemma_auto_plan(list, n, rules, ctx, config, host, k);
    }
}

/// Whether a step answers a selection: it stands for a group in which
/// something is selected, and a path is that of a selected candidate.
pub open spec fn answers_selection(
    step: StepModel,
    list: Seq<GroupModel>,
    selection: Seq<(usize, usize)>,
) -> bool {
    exists|i: int|
        0 <= i < list.len() && from_marked(
            step,
            (#[trigger] list[i]).candidates,
            selected_marks(list[i].candidates, i as usize, selection),
        )
}

proof fn lemma_selected_plan(
    list: Seq<GroupModel>,
    n: int,
    selection: Seq<(usize, usize)>,
    rules: Seq<RuleModel>,
    ctx: &Ctx,
    config: &Config,
    host: &Host,
    k: int,
)
    requires
        0 <= n <= list.len(),
        0 <= k < selected_plan(list, n, selection, rules, ctx, config, host).len(),
    ensures
        answers_selection(
            selected_plan(list, n, selection, rules, ctx, config, host)[k],
            list,
            selection,
        ),
    decreases n,
{
    if n > 0 {
        let before = selected_plan(list, n - 1, selection, rules, ctx, config, host);
        if k < before.len() {
            lemma_selected_plan(list, n - 1, selection, rules, ctx, config, host, k);
        } else {
            let group = list[n - 1];
            lemma_group_steps_are_marked(
                rules[privilege::rule_at(rules, group.rule_id, 0)->0],
                group.candidates,
                selected_marks(group.candidates, (n - 1) as usize, selection),
                ctx,
                config,
                host,
                k - before.len(),
            );
        }
    }
}

proof fn lemma_selected_ops(
    list: Seq<GroupModel>,
    n: int,
    selection: Seq<(usize, usize)>,
    rules: Seq<RuleModel>,
    host: &Host,
    k: int,
)
    requires
        0 <= n <= list.len(),
        0 <= k < selected_ops(list, n, selection, rules, host).len(),
    ensures
        op_answers_selection(
            selected_ops(list, n, selection, rules, host)[k],
            list,
            selection,
            host,
        ),
    decreases n,
{
    if n > 0 {
        let before = selected_ops(list, n - 1, selection, rules, host);
        if k < before.len() {
            lemma_selected_ops(list, n - 1, selection, rules, host, k);
        } else {
            let group = list[n - 1];
            lemma_ops_are_marked(
                group.candidates,
                selected_marks(group.candidates, (n - 1) as usize, selection),
                group.candidates.len() as int,
                rules[privilege::rule_at(rules, group.rule_id, 0)->0].id,
                host,
                k - before.len(),
            );
        }
    }
}

pub open spec fn op_answers_selection(
    op: OpModel,
    list: Seq<GroupModel>,
    selection: Seq<(usize, usize)>,
    host: &Host,
) -> bool {
    exists|i: int|
        0 <= i < list.len() && op_is_marked(
            op,
            (#[trigger] list[i]).candidates,
            selected_marks(list[i].candidates, i as usize, selection),
            host,
        )
}

/// A run on a selection touches nothing else: every path that is deleted,
/// by the helper too, is that of a selected candidate, and every command is
/// that of a group in which a candidate is selected. The helper is handed
/// the device and inode that were found.
pub proof fn law_only_the_selection_is_touched(
    list: Seq<GroupModel>,
    selection: Seq<(usize, usize)>,
    rules: Seq<RuleModel>,
    ctx: &Ctx,
    config: &Config,
    host: &Host,
)
    ensures
        forall|k: int|
            #![trigger selected_plan(list, list.len() as int, selection, rules, ctx, config, host)[k]]
            0 <= k < selected_plan(
                list,
                list.len() as int,
                selection,
                rules,
                ctx,
                config,
                host,
            ).len() ==> answers_selection(
                selected_plan(list, list.len() as int, selection, rules, ctx, config, host)[k],
                list,
                selection,
            ),
        forall|k: int|
            #![trigger selected_ops(list, list.len() as int, selection, rules, host)[k]]
            0 <= k < selected_ops(list, list.len() as int, selection, rules, host).len()
                ==> op_answers_selection(
                selected_ops(list, list.len() as int, selection, rules, host)[k],
                list,
                selection,
                host,
            ),
{
    let n = list.len() as int;
    assert forall|k: int|
        #![trigger selected_plan(list, n, selection, rules, ctx, config, host)[k]]
        0 <= k < selected_plan(
            list,
            n,
            selection,
            rules,
            ctx,
            config,
            host,
        ).len() implies answers_selection(
        selected_plan(list, n, selection, rules, ctx, config, host)[k],
        list,
        selection,
    ) by {
        lemma_selected_plan(list, n, selection, rules, ctx, config, host, k);
    }
    assert forall|k: int|
        #![trigger selected_ops(list, n, selection, rules, host)[k]]
        0 <= k < selected_ops(list, n, selection, rules, host).len() implies op_answers_selection(
        selected_ops(list, n, selection, rules, host)[k],
        list,
        selection,
        host,
    ) by {
        lemma_selected_ops(list, n, selection, rules, host, k);
    }
}

/// Nothing happens for an empty selection.
pub proof fn law_empty_selection_does_nothing(
    list: Seq<GroupModel>,
    rules: Seq<RuleModel>,
    ctx: &Ctx,
    config: &Config,
    host: &Host,
)
    ensures
        selected_plan(
            list,
            list.len() as int,
            Seq::empty(),
            rules,
            ctx,
            config,
            host,
        ).len() == 0,
        selected_ops(list, list.len() as int, Seq::empty(), rules, host).len() == 0,
{
    let none = Seq::<(usize, usize)>::empty();
    let n = list.len() as int;
    if selected_plan(list, n, none, rules, ctx, config, host).len() > 0 {
        lemma_selected_plan(list, n, none, rules, ctx, config, host, 0);
        let step = selected_plan(list, n, none, rules, ctx, config, host)[0];
        let i = choose|i: int|
            0 <= i < list.len() && from_marked(
                step,
                (#[trigger] list[i]).candidates,
                selected_marks(list[i].candidates, i as usize, none),
            );
        let marked = selected_marks(list[i].candidates, i as usize, none);
        assert(exists|j: int| 0 <= j < list[i].candidates.len() && #[trigger] marked[j]);
        assert(false);
    }
    if selected_ops(list, n, none, rules, host).len() > 0 {
        lemma_selected_ops(list, n, none, rules, host, 0);
    }
}

/// Whether an entry tells of an act.
pub open spec fn tells(
    entry: Entry,
    act: Act,
    command: Seq<char>,
    run_id: Seq<char>,
    dry_run: bool,
) -> bool {
    let record = entry.record;
    stamp(record.ts) && match act {
        Act::Delete { requires_sudo: _, allowed: _, path, estimated_bytes: _, outcome } => record
            == run_record(
            record.ts,
            command,
            run_id,
            record.rule,
            "delete"@,
            None,
            Some(path),
            false,
            dry_run,
            outcome.bytes_freed,
            outcome.outcome,
        ),
        Act::Run { cmd, outcome } => record == run_record(
            record.ts,
            command,
            run_id,
            record.rule,
            "cmd"@,
            Some(cmd.argv),
            None,
            cmd.sudo,
            dry_run,
            0,
            outcome.outcome,
        ),
        Act::Privileged { run_id: _, ops, outcomes } => exists|j: int|
            0 <= j < ops.len() && record == op_record(
                record.ts,
                #[trigger] ops[j],
                outcomes[j],
                run_id,
                dry_run,
            ),
    }
}

/// Whether some entry tells of an act.
pub open spec fn on_record(
    act: Act,
    entries: Seq<Entry>,
    command: Seq<char>,
    run_id: Seq<char>,
    dry_run: bool,
) -> bool {
    exists|k: int|
        0 <= k < entries.len() && tells(#[trigger] entries[k], act, command, run_id, dry_run)
}

/// Whatever is asked of an effector by the steps of a run is on record, with
/// what came of it.
pub proof fn law_every_act_is_on_record(
    list: Seq<StepModel>,
    n: int,
    acts: Seq<Act>,
    entries: Seq<Entry>,
    command: Seq<char>,
    run_id: Seq<char>,
    dry_run: bool,
    i: int,
)
    requires
        0 <= n <= list.len(),
        performed(list, n, acts, entries, command, run_id, dry_run),
        0 <= i < acts.len(),
    ensures
        on_record(acts[i], entries, command, run_id, dry_run),
{
    let k = step_of(list, n, i);
    lemma_step_of(list, n, i);
    assert(tells(entries[k], acts[i], command, run_id, dry_run));
}

/// The step among the first `n` that asks for act `i`.
spec fn step_of(list: Seq<StepModel>, n: int, i: int) -> int
    decreases n,
{
    if n <= 0 {
        0
    } else if is_act(list[n - 1]) && act_count(list, n - 1) == i {
        n - 1
    } else {
        step_of(list, n - 1, i)
    }
}

proof fn lemma_step_of(list: Seq<StepModel>, n: int, i: int)
    requires
        0 <= i < act_count(list, n),
    ensures
        0 <= step_of(list, n, i) < n,
        is_act(list[step_of(list, n, i)]),
        act_count(list, step_of(list, n, i)) == i,
    decreases n,
{
    if n > 0 && !(is_act(list[n - 1]) && act_count(list, n - 1) == i) {
        lemma_step_of(list, n - 1, i);
    }
}

/// Whatever is asked of an effector for a selection is on record, with what
/// came of it, and so is every path that was handed to the helper.
pub proof fn law_every_selected_act_is_on_record(
    plan: Seq<StepModel>,
    ops: Seq<OpModel>,
    acts: Seq<Act>,
    entries: Seq<Entry>,
    run_id: Seq<char>,
    dry_run: bool,
    i: int,
)
    requires
        performed_with_helper(plan, ops, acts, entries, run_id, dry_run),
        0 <= i < acts.len(),
    ensures
        on_record(acts[i], entries, "clean"@, run_id, dry_run),
        acts[i] matches Act::Privileged { run_id: told, ops: handed, outcomes } ==> {
            &&& told == run_id
            &&& handed == ops
            &&& outcomes.len() == ops.len()
            &&& forall|j: int|
                0 <= j < ops.len() ==> exists|k: int|
                    0 <= k < entries.len() && (#[trigger] entries[k]).record == op_record(
                        entries[k].record.ts,
                        #[trigger] ops[j],
                        outcomes[j],
                        run_id,
                        dry_run,
                    )
        },
{
    let n = plan.len() as int;
    if ops.len() == 0 {
        law_every_act_is_on_record(plan, n, acts, entries, "clean"@, run_id, dry_run, i);
        assert(acts[i] !is Privileged) by {
            lemma_step_of(plan, n, i);
            let k = step_of(plan, n, i);
            assert(stamp(entries[k].record.ts));
            assert(asks(plan[k], acts[i]));
        }
    } else if i < acts.len() - 1 {
        let before = acts.drop_last();
        let first = entries.take(n);
        law_every_act_is_on_record(plan, n, before, first, "clean"@, run_id, dry_run, i);
        let k = choose|k: int|
            0 <= k < first.len() && tells(
                #[trigger] first[k],
                before[i],
                "clean"@,
                run_id,
                dry_run,
            );
        assert(entries[k] == first[k]);
        assert(acts[i] == before[i]);
        assert(acts[i] !is Privileged) by {
            lemma_step_of(plan, n, i);
            let k = step_of(plan, n, i);
            assert(stamp(first[k].record.ts));
            assert(asks(plan[k], before[i]));
        }
    } else {
        assert(entries[n + 0].record == op_record(
            entries[n + 0].record.ts,
            ops[0],
            acts.last()->outcomes[0],
            run_id,
            dry_run,
        ));
        assert(tells(entries[n + 0], acts[i], "clean"@, run_id, dry_run));
        assert forall|j: int| 0 <= j < ops.len() implies exists|k: int|
            0 <= k < entries.len() && (#[trigger] entries[k]).record == op_record(
                entries[k].record.ts,
                #[trigger] ops[j],
                acts[i]->outcomes[j],
                run_id,
                dry_run,
            ) by {
            assert(entries[n + j].record == op_record(
                entries[n + j].record.ts,
                ops[j],
                acts.last()->outcomes[j],
                run_id,
                dry_run,
            ));
        }
    }
}

/// Whether a selection ticks exactly what is selectable.
pub open spec fn ticks_all(list: Seq<GroupModel>, selection: Seq<(usize, usize)>) -> bool {
    forall|i: int, j: int|
        0 <= i < list.len() && 0 <= j < list[i].candidates.len() ==> (selection.contains(
            (i as usize, j as usize),
        ) <==> (#[trigger] list[i].candidates[j]).selectable)
}

/// Whether a group is dealt with alike by itself and when all of it is
/// ticked: it is safe, deletes nothing with root privilege, and a command
/// that does not depend on the candidates has one that can be ticked.
pub open spec fn needs_no_choice(g: GroupModel, rules: Seq<RuleModel>) -> bool {
    &&& g.risk == Risk::Safe
    &&& match privilege::rule_at(rules, g.rule_id, 0) {
        Some(k) => match rules[k].action {
            Action::DeletePaths => !rules[k].requires_sudo,
            Action::Cmd(_) => exists|j: int|
                0 <= j < g.candidates.len() && (#[trigger] g.candidates[j]).selectable,
            _ => true,
        },
        None => true,
    }
}

proof fn lemma_some_chosen(list: Seq<CandidateModel>, marked: Seq<bool>, n: int, j: int)
    requires
        0 <= j < n <= list.len(),
        marked[j],
    ensures
        chosen(list, marked, n).len() > 0,
    decreases n,
{
    if j < n - 1 {
        lemma_some_chosen(list, marked, n - 1, j);
    }
}

proof fn lemma_plans_agree(
    list: Seq<GroupModel>,
    n: int,
    selection: Seq<(usize, usize)>,
    rules: Seq<RuleModel>,
    ctx: &Ctx,
    config: &Config,
    host: &Host,
)
    requires
        0 <= n <= list.len() <= usize::MAX,
        ticks_all(list, selection),
        forall|i: int| 0 <= i < list.len() ==> needs_no_choice(#[trigger] list[i], rules),
    ensures
        auto_plan(list, n, rules, ctx, config, host) == selected_plan(
            list,
            n,
            selection,
            rules,
            ctx,
            config,
            host,
        ),
        selected_ops(list, n, selection, rules, host) == Seq::<OpModel>::empty(),
    decreases n,
{
    if n > 0 {
        lemma_plans_agree(list, n - 1, selection, rules, ctx, config, host);
        let g = list[n - 1];
        assert(needs_no_choice(g, rules));
        let marked = selected_marks(g.candidates, (n - 1) as usize, selection);
        assert forall|j: int| 0 <= j < g.candidates.len() implies marked[j]
            == selectable_marks(g.candidates)[j] by {
            assert(list[n - 1].candidates[j].selectable == selection.contains(
                ((n - 1) as usize, j as usize),
            ));
        }
        assert(marked =~= selectable_marks(g.candidates));
        if let Some(k) = privilege::rule_at(rules, g.rule_id, 0) {
            if let Action::Cmd(_) = rules[k].action {
                let j = choose|j: int|
                    0 <= j < g.candidates.len() && (#[trigger] g.candidates[j]).selectable;
                lemma_some_chosen(g.candidates, marked, g.candidates.len() as int, j);
            }
            assert(group_ops(rules[k], g.candidates, marked, host) =~= Seq::empty());
        }
    }
}

/// Where no group needs a choice, it makes no difference whether a run goes
/// by itself or everything selectable is ticked: the steps are the same, in
/// the same order, and there is nothing for the helper.
pub proof fn law_ticking_all_is_what_yes_does(
    list: Seq<GroupModel>,
    selection: Seq<(usize, usize)>,
    rules: Seq<RuleModel>,
    ctx: &Ctx,
    config: &Config,
    host: &Host,
    acts: Seq<Act>,
    entries: Seq<Entry>,
    run_id: Seq<char>,
    dry_run: bool,
)
    requires
        list.len() <= usize::MAX,
        ticks_all(list, selection),
        forall|i: int| 0 <= i < list.len() ==> needs_no_choice(#[trigger] list[i], rules),
    ensures
        ({
            let n = list.len() as int;
            let plan = auto_plan(list, n, rules, ctx, config, host);
            let ops = selected_ops(list, n, selection, rules, host);
            &&& plan == selected_plan(list, n, selection, rules, ctx, config, host)
            &&& ops.len() == 0
            &&& performed(plan, plan.len() as int, acts, entries, "clean"@, run_id, dry_run)
                <==> performed_with_helper(plan, ops, acts, entries, run_id, dry_run)
        }),
{
    lemma_plans_agree(list, list.len() as int, selection, rules, ctx, config, host);
}

/// Whether two records differ in nothing but their time.
pub open spec fn same_but_time(a: RecordModel, b: RecordModel) -> bool {
    a == (RecordModel { ts: a.ts, ..b })
}

/// Two runs of the same steps that get the same answers put the same on
/// record, but for the time, and come to the same.
pub proof fn law_same_answers_same_records(
    list: Seq<StepModel>,
    n: int,
    acts: Seq<Act>,
    one: Seq<Entry>,
    other: Seq<Entry>,
    command: Seq<char>,
    run_id: Seq<char>,
    dry_run: bool,
    first: Summary,
    second: Summary,
)
    requires
        performed(list, n, acts, one, command, run_id, dry_run),
        performed(list, n, acts, other, command, run_id, dry_run),
        forall|k: int| 0 <= k < n ==> (#[trigger] one[k]).error == other[k].error,
        summed_up(first, one),
        summed_up(second, other),
    ensures
        one.len() == other.len(),
        forall|k: int|
            0 <= k < n ==> same_but_time((#[trigger] one[k]).record, other[k].record),
        first.bytes_freed == second.bytes_freed,
        first.actions == second.actions,
        text::texts(first.journal_warnings@) == text::texts(second.journal_warnings@),
{
    assert forall|k: int| 0 <= k < n implies same_but_time(
        (#[trigger] one[k]).record,
        other[k].record,
    ) by {
        assert(other[k].record == step_record(
            other[k].record.ts,
            list[k],
            acts[act_count(list, k)],
            command,
            run_id,
            dry_run,
        ));
    }
    lemma_same_totals(one, other);
}

proof fn lemma_same_totals(one: Seq<Entry>, other: Seq<Entry>)
    requires
        one.len() == other.len(),
        forall|k: int|
            0 <= k < one.len() ==> (#[trigger] one[k]).error == other[k].error
                && one[k].record.bytes_freed == other[k].record.bytes_freed,
    ensures
        total_freed(one) == total_freed(other),
        warnings(one) == warnings(other),
    decreases one.len(),
{
    if one.len() > 0 {
        assert forall|k: int| 0 <= k < one.drop_last().len() implies (
        #[trigger] one.drop_last()[k]).error == other.drop_last()[k].error
            && one.drop_last()[k].record.bytes_freed
            == other.drop_last()[k].record.bytes_freed by {
            assert(one.drop_last()[k] == one[k]);
        }
        lemma_same_totals(one.drop_last(), other.drop_last());
        assert(one[one.len() - 1].error == other[other.len() - 1].error);
    }
}

/// A preview tells the same every time: what is only told of follows from
/// the steps.
pub proof fn law_previews_agree(
    list: Seq<StepModel>,
    n: int,
    one: Seq<Act>,
    other: Seq<Act>,
    first: Seq<Entry>,
    second: Seq<Entry>,
    command: Seq<char>,
    run_id: Seq<char>,
    dry_run: bool,
)
    requires
        0 <= n <= list.len(),
        performed(list, n, one, first, command, run_id, dry_run),
        performed(list, n, other, second, command, run_id, dry_run),
        all_told(one),
        all_told(other),
    ensures
        one == other,
{
    assert forall|i: int| 0 <= i < one.len() implies one[i] == other[i] by {
        lemma_step_of(list, n, i);
        let k = step_of(list, n, i);
        assert(stamp(first[k].record.ts) && stamp(second[k].record.ts));
        assert(asks(list[k], one[i]) && asks(list[k], other[i]));
        assert(only_told(one[i]) && only_told(other[i]));
    }
    assert(one =~= other);
}

// -------------------------------------------------------------- nothing is left undone

/// Whether the rule at `k` is the first of that id.
pub open spec fn rules_it(rules: Seq<RuleModel>, id: Seq<char>, k: int) -> bool {
    &&& 0 <= k < rules.len()
    &&& rules[k].id == id
    &&& forall|j: int| 0 <= j < k ==> (#[trigger] rules[j]).id != id
}

proof fn lemma_rules_it(rules: Seq<RuleModel>, id: Seq<char>, k: int, from: int)
    requires
        rules_it(rules, id, k),
        0 <= from <= k,
    ensures
        privilege::rule_at(rules, id, from) == Some(k),
    decreases k - from,
{
    if from < k {
        lemma_rules_it(rules, id, k, from + 1);
    }
}

proof fn lemma_delete_step(
    list: Seq<CandidateModel>,
    marked: Seq<bool>,
    n: int,
    rule_id: Seq<char>,
    allowed: Seq<Seq<char>>,
    c: int,
)
    requires
        0 <= c < n <= list.len(),
        marked[c],
        list[c].path is Some,
    ensures
        delete_steps(list, marked, n, rule_id, allowed).contains(
            (StepModel::Delete { rule_id, allowed, path: list[c].path->0, bytes: list[c].bytes }),
        ),
    decreases n,
{
    let step = StepModel::Delete {
        rule_id,
        allowed,
        path: list[c].path->0,
        bytes: list[c].bytes,
    };
    let before = delete_steps(list, marked, n - 1, rule_id, allowed);
    let now = delete_steps(list, marked, n, rule_id, allowed);
    if c < n - 1 {
        lemma_delete_step(list, marked, n - 1, rule_id, allowed, c);
        let k = choose|k: int| 0 <= k < before.len() && before[k] == step;
        assert(now[k] == step);
    } else {
        assert(now[before.len() as int] == step);
    }
}

proof fn lemma_helper_op(
    list: Seq<CandidateModel>,
    marked: Seq<bool>,
    n: int,
    rule_id: Seq<char>,
    host: &Host,
    c: int,
)
    requires
        0 <= c < n <= list.len(),
        marked[c],
        list[c].path is Some,
    ensures
        match host.found(list[c].path->0) {
            Some(entry) => privileged_ops(list, marked, n, rule_id, host).contains(
                (OpModel {
                    rule_id,
                    path: list[c].path->0,
                    expected_dev: entry.dev,
                    expected_ino: entry.ino,
                    estimated_bytes: list[c].bytes,
                }),
            ),
            None => unstatable_steps(list, marked, n, rule_id, host).contains(
                (StepModel::Unstatable {
                    rule_id,
                    path: list[c].path->0,
                    reason: host.stat_error(list[c].path->0),
                }),
            ),
        },
    decreases n,
{
    let path = list[c].path->0;
    let a = privileged_ops(list, marked, n - 1, rule_id, host);
    let b = privileged_ops(list, marked, n, rule_id, host);
    let x = unstatable_steps(list, marked, n - 1, rule_id, host);
    let y = unstatable_steps(list, marked, n, rule_id, host);
    if c < n - 1 {
        lemma_helper_op(list, marked, n - 1, rule_id, host, c);
    }
    match host.found(path) {
        Some(entry) => {
            let op = OpModel {
                rule_id,
                path,
                expected_dev: entry.dev,
                expected_ino: entry.ino,
                estimated_bytes: list[c].bytes,
            };
            if c < n - 1 {
                let k = choose|k: int| 0 <= k < a.len() && a[k] == op;
                assert(b[k] == op);
            } else {
                assert(b[a.len() as int] == op);
            }
        },
        None => {
            let step = StepModel::Unstatable { rule_id, path, reason: host.stat_error(path) };
            if c < n - 1 {
                let k = choose|k: int| 0 <= k < x.len() && x[k] == step;
                assert(y[k] == step);
            } else {
                assert(y[x.len() as int] == step);
            }
        },
    }
}

proof fn lemma_chosen(list: Seq<CandidateModel>, marked: Seq<bool>, n: int, c: int)
    requires
        0 <= c < n <= list.len(),
        marked[c],
    ensures
        chosen(list, marked, n).contains(list[c]),
    decreases n,
{
    let before = chosen(list, marked, n - 1);
    let now = chosen(list, marked, n);
    if c < n - 1 {
        lemma_chosen(list, marked, n - 1, c);
        let k = choose|k: int| 0 <= k < before.len() && before[k] == list[c];
        assert(now[k] == list[c]);
    } else {
        assert(now[before.len() as int] == list[c]);
    }
}

proof fn lemma_group_in_plan(
    list: Seq<GroupModel>,
    n: int,
    selection: Seq<(usize, usize)>,
    rules: Seq<RuleModel>,
    ctx: &Ctx,
    config: &Config,
    host: &Host,
    g: int,
    k: int,
    step: StepModel,
)
    requires
        0 <= g < n <= list.len(),
        rules_it(rules, list[g].rule_id, k),
        group_steps(
            rules[k],
            list[g].candidates,
            selected_marks(list[g].candidates, g as usize, selection),
            ctx,
            config,
            host,
        ).contains(step),
    ensures
        selected_plan(list, n, selection, rules, ctx, config, host).contains(step),
    decreases n,
{
    lemma_rules_it(rules, list[g].rule_id, k, 0);
    let before = selected_plan(list, n - 1, selection, rules, ctx, config, host);
    let now = selected_plan(list, n, selection, rules, ctx, config, host);
    if g < n - 1 {
        lemma_group_in_plan(list, n - 1, selection, rules, ctx, config, host, g, k, step);
        let i = choose|i: int| 0 <= i < before.len() && before[i] == step;
        assert(now[i] == step);
    } else {
        let more = group_steps(
            rules[k],
            list[g].candidates,
            selected_marks(list[g].candidates, g as usize, selection),
            ctx,
            config,
            host,
        );
        let i = choose|i: int| 0 <= i < more.len() && more[i] == step;
        assert(now[before.len() + i] == step);
    }
}

proof fn lemma_group_in_ops(
    list: Seq<GroupModel>,
    n: int,
    selection: Seq<(usize, usize)>,
    rules: Seq<RuleModel>,
    host: &Host,
    g: int,
    k: int,
    op: OpModel,
)
    requires
        0 <= g < n <= list.len(),
        rules_it(rules, list[g].rule_id, k),
        group_ops(
            rules[k],
            list[g].candidates,
            selected_marks(list[g].candidates, g as usize, selection),
            host,
        ).contains(op),
    ensures
        selected_ops(list, n, selection, rules, host).contains(op),
    decreases n,
{
    lemma_rules_it(rules, list[g].rule_id, k, 0);
    let before = selected_ops(list, n - 1, selection, rules, host);
    let now = selected_ops(list, n, selection, rules, host);
    if g < n - 1 {
        lemma_group_in_ops(list, n - 1, selection, rules, host, g, k, op);
        let i = choose|i: int| 0 <= i < before.len() && before[i] == op;
        assert(now[i] == op);
    } else {
        let more = group_ops(
            rules[k],
            list[g].candidates,
            selected_marks(list[g].candidates, g as usize, selection),
            host,
        );
        let i = choose|i: int| 0 <= i < more.len() && more[i] == op;
        assert(now[before.len() + i] == op);
    }
}

/// Every selected path is dealt with: deleted within the places its rule
/// allows, or where the rule takes root's power handed to the helper with the
/// device and inode it has now, or told of as missing.
pub proof fn law_every_selected_path_is_dealt_with(
    list: Seq<GroupModel>,
    selection: Seq<(usize, usize)>,
    rules: Seq<RuleModel>,
    ctx: &Ctx,
    config: &Config,
    host: &Host,
    g: int,
    c: int,
    k: int,
)
    requires
        0 <= g < list.len(),
        0 <= c < list[g].candidates.len(),
        selection.contains((g as usize, c as usize)),
        list[g].candidates[c].path is Some,
        rules_it(rules, list[g].rule_id, k),
        rules[k].action == Action::DeletePaths,
    ensures
        ({
            let x = list[g].candidates[c];
            let path = x.path->0;
            let n = list.len() as int;
            let plan = selected_plan(list, n, selection, rules, ctx, config, host);
            let ops = selected_ops(list, n, selection, rules, host);
            &&& !rules[k].requires_sudo ==> plan.contains(
                (StepModel::Delete {
                    rule_id: rules[k].id,
                    allowed: expanded_all(rules[k].allowed_prefixes, ctx.root@, ctx.home@),
                    path,
                    bytes: x.bytes,
                }),
            )
            &&& rules[k].requires_sudo && host.found(path) is Some ==> ops.contains(
                (OpModel {
                    rule_id: rules[k].id,
                    path,
                    expected_dev: host.found(path)->0.dev,
                    expected_ino: host.found(path)->0.ino,
                    estimated_bytes: x.bytes,
                }),
            )
            &&& rules[k].requires_sudo && host.found(path) is None ==> plan.contains(
                (StepModel::Unstatable {
                    rule_id: rules[k].id,
                    path,
                    reason: host.stat_error(path),
                }),
            )
        }),
{
    let cands = list[g].candidates;
    let n = list.len() as int;
    let m = cands.len() as int;
    let marked = selected_marks(cands, g as usize, selection);
    let rule = rules[k];
    let path = cands[c].path->0;
    let allowed = expanded_all(rule.allowed_prefixes, ctx.root@, ctx.home@);
    assert(marked[c]);
    if !rule.requires_sudo {
        lemma_delete_step(cands, marked, m, rule.id, allowed, c);
        let step = StepModel::Delete { rule_id: rule.id, allowed, path, bytes: cands[c].bytes };
        lemma_group_in_plan(list, n, selection, rules, ctx, config, host, g, k, step);
    } else {
        lemma_helper_op(cands, marked, m, rule.id, host, c);
        match host.found(path) {
            Some(entry) => {
                let op = OpModel {
                    rule_id: rule.id,
                    path,
                    expected_dev: entry.dev,
                    expected_ino: entry.ino,
                    estimated_bytes: cands[c].bytes,
                };
                lemma_group_in_ops(list, n, selection, rules, host, g, k, op);
            },
            None => {
                let step = StepModel::Unstatable {
                    rule_id: rule.id,
                    path,
                    reason: host.stat_error(path),
                };
                lemma_group_in_plan(list, n, selection, rules, ctx, config, host, g, k, step);
            },
        }
    }
}

/// The commands of a group run where anything in it is selected: all of them,
/// made for what is selected.
pub proof fn law_commands_of_a_selection_run(
    list: Seq<GroupModel>,
    selection: Seq<(usize, usize)>,
    rules: Seq<RuleModel>,
    ctx: &Ctx,
    config: &Config,
    host: &Host,
    g: int,
    c: int,
    k: int,
    i: int,
) -> (picked: Seq<CandidateModel>)
    requires
        0 <= g < list.len(),
        0 <= c < list[g].candidates.len(),
        selection.contains((g as usize, c as usize)),
        rules_it(rules, list[g].rule_id, k),
    ensures
        picked.contains(list[g].candidates[c]),
        ({
            let plan = selected_plan(
                list,
                list.len() as int,
                selection,
                rules,
                ctx,
                config,
                host,
            );
            let id = rules[k].id;
            match rules[k].action {
                Action::DeletePaths => true,
                Action::Cmd(x) => 0 <= i < commands_of(x, ctx, config, host).len()
                    ==> plan.contains(
                    (StepModel::Run { rule_id: id, cmd: commands_of(x, ctx, config, host)[i] }),
                ),
                Action::CmdSelected(x) => 0 <= i < selected_commands(x, ctx, host, picked).len()
                    ==> plan.contains(
                    (StepModel::Run {
                        rule_id: id,
                        cmd: selected_commands(x, ctx, host, picked)[i],
                    }),
                ),
                Action::CmdSelectedWithSkips(x) => {
                    &&& 0 <= i < refusing_commands(x, picked).0.len() ==> plan.contains(
                        (StepModel::Run { rule_id: id, cmd: refusing_commands(x, picked).0[i] }),
                    )
                    &&& 0 <= i < refusing_commands(x, picked).1.len() ==> plan.contains(
                        (StepModel::Refuse {
                            rule_id: id,
                            label: refusing_commands(x, picked).1[i].0,
                            reason: refusing_commands(x, picked).1[i].1,
                        }),
                    )
                },
            }
        }),
{
    let cands = list[g].candidates;
    let n = list.len() as int;
    let marked = selected_marks(cands, g as usize, selection);
    assert(marked[c]);
    let picked = chosen(cands, marked, cands.len() as int);
    lemma_chosen(cands, marked, cands.len() as int, c);
    let rule = rules[k];
    let steps = group_steps(rule, cands, marked, ctx, config, host);
    match rule.action {
        Action::DeletePaths => {},
        Action::Cmd(x) => {
            if 0 <= i < commands_of(x, ctx, config, host).len() {
                let step = steps[i];
                assert(steps.contains(step));
                lemma_group_in_plan(list, n, selection, rules, ctx, config, host, g, k, step);
            }
        },
        Action::CmdSelected(x) => {
            if 0 <= i < selected_commands(x, ctx, host, picked).len() {
                let step = steps[i];
                assert(steps.contains(step));
                lemma_group_in_plan(list, n, selection, rules, ctx, config, host, g, k, step);
            }
        },
        Action::CmdSelectedWithSkips(x) => {
            let runs = refusing_commands(x, picked).0;
            let notes = refusing_commands(x, picked).1;
            if 0 <= i < runs.len() {
                let step = steps[i];
                assert(steps.contains(step));
                lemma_group_in_plan(list, n, selection, rules, ctx, config, host, g, k, step);
            }
            if 0 <= i < notes.len() {
                let step = steps[runs.len() + i];
                assert(step == refuse_steps(rule.id, notes)[i]);
                assert(steps.contains(step));
                lemma_group_in_plan(list, n, selection, rules, ctx, config, host, g, k, step);
            }
        },
    }
    picked
}

proof fn lemma_group_in_auto(
    list: Seq<GroupModel>,
    n: int,
    rules: Seq<RuleModel>,
    ctx: &Ctx,
    config: &Config,
    host: &Host,
    g: int,
    k: int,
    step: StepModel,
)
    requires
        0 <= g < n <= list.len(),
        rules_it(rules, list[g].rule_id, k),
        auto_steps(rules[k], list[g], ctx, config, host).contains(step),
    ensures
        auto_plan(list, n, rules, ctx, config, host).contains(step),
    decreases n,
{
    lemma_rules_it(rules, list[g].rule_id, k, 0);
    let before = auto_plan(list, n - 1, rules, ctx, config, host);
    let now = auto_plan(list, n, rules, ctx, config, host);
    if g < n - 1 {
        lemma_group_in_auto(list, n - 1, rules, ctx, config, host, g, k, step);
        let i = choose|i: int| 0 <= i < before.len() && before[i] == step;
        assert(now[i] == step);
    } else {
        let more = auto_steps(rules[k], list[g], ctx, config, host);
        let i = choose|i: int| 0 <= i < more.len() && more[i] == step;
        assert(now[before.len() + i] == step);
    }
}

/// An unattended run deletes everything selectable in the Safe groups that
/// takes no root's power, and runs the commands of the Safe groups.
pub proof fn law_unattended_runs_do_all_that_is_safe(
    list: Seq<GroupModel>,
    rules: Seq<RuleModel>,
    ctx: &Ctx,
    config: &Config,
    host: &Host,
    g: int,
    k: int,
    c: int,
)
    requires
        0 <= g < list.len(),
        list[g].risk == Risk::Safe,
        rules_it(rules, list[g].rule_id, k),
    ensures
        ({
            let plan = auto_plan(list, list.len() as int, rules, ctx, config, host);
            let rule = rules[k];
            match rule.action {
                Action::DeletePaths => !rule.requires_sudo && 0 <= c < list[g].candidates.len()
                    && list[g].candidates[c].selectable && list[g].candidates[c].path is Some
                    ==> plan.contains(
                    (StepModel::Delete {
                        rule_id: rule.id,
                        allowed: expanded_all(rule.allowed_prefixes, ctx.root@, ctx.home@),
                        path: list[g].candidates[c].path->0,
                        bytes: list[g].candidates[c].bytes,
                    }),
                ),
                Action::Cmd(x) => 0 <= c < commands_of(x, ctx, config, host).len()
                    ==> plan.contains(
                    (StepModel::Run {
                        rule_id: rule.id,
                        cmd: commands_of(x, ctx, config, host)[c],
                    }),
                ),
                _ => true,
            }
        }),
{
    let n = list.len() as int;
    let rule = rules[k];
    let cands = list[g].candidates;
    let steps = auto_steps(rule, list[g], ctx, config, host);
    match rule.action {
        Action::DeletePaths => {
            if !rule.requires_sudo && 0 <= c < cands.len() && cands[c].selectable
                && cands[c].path is Some {
                let allowed = expanded_all(rule.allowed_prefixes, ctx.root@, ctx.home@);
                let marked = selectable_marks(cands);
                assert(marked[c]);
                lemma_delete_step(cands, marked, cands.len() as int, rule.id, allowed, c);
                let step = StepModel::Delete {
                    rule_id: rule.id,
                    allowed,
                    path: cands[c].path->0,
                    bytes: cands[c].bytes,
                };
                lemma_group_in_auto(list, n, rules, ctx, config, host, g, k, step);
            }
        },
        Action::Cmd(x) => {
            if 0 <= c < commands_of(x, ctx, config, host).len() {
                let step = steps[c];
                assert(steps.contains(step));
                lemma_group_in_auto(list, n, rules, ctx, config, host, g, k, step);
            }
        },
        _ => {},
    }
}

/// What each task runs, and with whose power.
pub proof fn law_tasks_run_their_own_commands(ctx: &Ctx, config: &Config, host: &Host)
    ensures
        commands_of(Commands::PacmanCache, ctx, config, host)
            == command::paccache_commands(config.clean.paccache_keep),
        commands_of(Commands::Journald, ctx, config, host) == command::journalctl_commands(
            config.clean.journal_max_size@,
        ),
        commands_of(Commands::Fstrim, ctx, config, host)[0].argv == seq!["fstrim"@, "-av"@],
        commands_of(Commands::Fstrim, ctx, config, host)[0].sudo,
        commands_of(Commands::Updatedb, ctx, config, host)[0].argv == seq!["updatedb"@],
        commands_of(Commands::Updatedb, ctx, config, host)[0].sudo,
        commands_of(Commands::PacmanFiles, ctx, config, host)[0].argv == seq!["pacman"@, "-Fy"@],
        commands_of(Commands::PacmanFiles, ctx, config, host)[0].sudo,
        commands_of(Commands::FontCache, ctx, config, host)[0].argv == seq!["fc-cache"@, "-f"@],
        !commands_of(Commands::FontCache, ctx, config, host)[0].sudo,
        commands_of(Commands::FlatpakUnused, ctx, config, host)[0].argv == seq![
            "flatpak"@,
            "uninstall"@,
            "--unused"@,
            "--noninteractive"@,
        ],
        !commands_of(Commands::FlatpakUnused, ctx, config, host)[0].sudo,
        commands_of(Commands::ResetFailed, ctx, config, host).len() == 2,
        commands_of(Commands::ResetFailed, ctx, config, host)[0].argv == seq![
            "systemctl"@,
            "reset-failed"@,
        ],
        commands_of(Commands::ResetFailed, ctx, config, host)[0].sudo,
        commands_of(Commands::ResetFailed, ctx, config, host)[1].argv == seq![
            "systemctl"@,
            "--user"@,
            "reset-failed"@,
        ],
        !commands_of(Commands::ResetFailed, ctx, config, host)[1].sudo,
{
}

/// A command takes `sudo` in front of it where it needs root's power, and
/// goes as it is otherwise; it went well where it says so.
pub proof fn law_commands_go_as_they_are(cmd: CmdModel, out: crate::runner::OutputModel, e: Seq<
    char,
>)
    ensures
        cmd.sudo ==> full_argv(cmd) == seq!["sudo"@] + cmd.argv,
        !cmd.sudo ==> full_argv(cmd) == cmd.argv,
        out.success ==> reply_outcome(Ok(out)).outcome == "ok"@,
        !out.success ==> reply_outcome(Ok(out)).outcome == "error: "@ + text::trim(out.stderr),
        reply_outcome(Err(e)).outcome == "error: "@ + e,
{
}

/// Every record adds what it freed to the total, and one that could not be
/// written its warning.
pub proof fn law_records_add_up(entries: Seq<Entry>, e: Entry)
    ensures
        total_freed(Seq::<Entry>::empty()) == 0,
        total_freed(entries) + e.record.bytes_freed <= u64::MAX ==> total_freed(entries.push(e))
            == total_freed(entries) + e.record.bytes_freed,
        total_freed(entries) + e.record.bytes_freed > u64::MAX ==> total_freed(entries.push(e))
            == u64::MAX,
        e.error is None ==> warnings(entries.push(e)) == warnings(entries),
        e.error is Some ==> warnings(entries.push(e)) == warnings(entries).push(
            "failed to record audit trail: "@ + e.error->0,
        ),
{
    assert(entries.push(e).drop_last() =~= entries);
}

/// Every selected path is to be deleted, within the places allowed.
pub proof fn law_every_selected_path_is_to_go(
    list: Seq<GroupModel>,
    n: int,
    selection: Seq<(usize, usize)>,
    allowed: Seq<Seq<char>>,
    g: int,
    c: int,
)
    requires
        0 <= g < n <= list.len(),
        0 <= c < list[g].candidates.len(),
        list[g].candidates[c].path is Some,
        selection.contains((g as usize, c as usize)),
    ensures
        selected_deletes(list, n, selection, allowed).contains(
            (StepModel::Delete {
                rule_id: list[g].rule_id,
                allowed,
                path: list[g].candidates[c].path->0,
                bytes: list[g].candidates[c].bytes,
            }),
        ),
    decreases n,
{
    let cands = list[g].candidates;
    let step = StepModel::Delete {
        rule_id: list[g].rule_id,
        allowed,
        path: cands[c].path->0,
        bytes: cands[c].bytes,
    };
    let before = selected_deletes(list, n - 1, selection, allowed);
    let now = selected_deletes(list, n, selection, allowed);
    if g < n - 1 {
        law_every_selected_path_is_to_go(list, n - 1, selection, allowed, g, c);
        let i = choose|i: int| 0 <= i < before.len() && before[i] == step;
        assert(now[i] == step);
    } else {
        let marked = selected_marks(cands, g as usize, selection);
        assert(marked[c]);
        let more = delete_steps(cands, marked, cands.len() as int, list[g].rule_id, allowed);
        lemma_delete_step(cands, marked, cands.len() as int, list[g].rule_id, allowed, c);
        let i = choose|i: int| 0 <= i < more.len() && more[i] == step;
        assert(now[before.len() + i] == step);
    }
}

} // verus!

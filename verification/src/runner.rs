//! Running external commands, for real or from a list of canned answers.

use vstd::prelude::*;

use crate::ctx::Ctx;
use crate::text;
use crate::text::{read_text, text_in};

verus! {

#[derive(Debug, PartialEq, Eq)]
pub struct CmdOutput {
    pub success: bool,
    pub stdout: String,
    pub stderr: String,
}

/// What a command wrote, as a mathematical value.
pub struct OutputModel {
    pub success: bool,
    pub stdout: Seq<char>,
    pub stderr: Seq<char>,
}

impl View for CmdOutput {
    type V = OutputModel;

    open spec fn view(&self) -> OutputModel {
        OutputModel { success: self.success, stdout: self.stdout@, stderr: self.stderr@ }
    }
}

impl Clone for CmdOutput {
    fn clone(&self) -> (r: Self)
        ensures
            r@ == self@,
    {
        CmdOutput {
            success: self.success,
            stdout: self.stdout.clone(),
            stderr: self.stderr.clone(),
        }
    }
}

/// The answer to a command: what it wrote, or why it could not be run.
pub type Reply = Result<OutputModel, Seq<char>>;

pub open spec fn reply(r: Result<CmdOutput, String>) -> Reply {
    match r {
        Ok(out) => Ok(out@),
        Err(message) => Err(message@),
    }
}

/// One command and the answer it got.
pub struct Exchange {
    pub argv: Seq<Seq<char>>,
    pub reply: Reply,
}

/// Runs an argv and tells what happened. A runner remembers what it was asked
/// and what it answered, so that callers can say exactly which commands they
/// ran and what they made of the answers.
pub trait CommandRunner {
    /// Everything run so far, oldest first.
    spec fn exchanges(&self) -> Seq<Exchange>;

    /// The answers that it was given beforehand. They stay as they are, and a
    /// command that has one gets it.
    spec fn prepared(&self) -> Seq<(Vec<String>, CmdOutput)>;

    fn run(&mut self, argv: &Vec<String>) -> (r: Result<CmdOutput, String>)
        ensures
            final(self).prepared() == old(self).prepared(),
            canned_answer(old(self).prepared(), text::texts(argv@)) matches Some(out) ==> reply(r)
                == Reply::Ok(out),
            final(self).exchanges() == old(self).exchanges().push(
                (Exchange { argv: text::texts(argv@), reply: reply(r) }),
            ),
    ;
}

/// What a started program left behind.
#[derive(Debug)]
pub struct RawOutput {
    pub success: bool,
    pub stdout: Vec<u8>,
    pub stderr: Vec<u8>,
}

/// A program that was started, with its arguments, and what came of it.
pub struct Start {
    pub program: Seq<char>,
    pub args: Seq<Seq<char>>,
    pub answer: Result<RawOutput, String>,
}

/// Starts programs, and remembers which. Nothing is promised of what they
/// answer.
pub trait Shell {
    /// Everything started so far, oldest first.
    ///
    /// The log is for proofs and no part of the running program. A type that
    /// Verus does not see takes over this default and keeps nothing.
    closed spec fn started(&self) -> Seq<Start> {
        Seq::empty()
    }

    fn start(&mut self, program: &str, args: &Vec<String>) -> (r: Result<RawOutput, String>)
        ensures
            final(self).started() == old(self).started().push(
                (Start { program: program@, args: text::texts(args@), answer: r }),
            ),
    ;
}

/// What is made of a started program: its output as text, or why it could
/// not be started.
pub open spec fn told(program: Seq<char>, answer: Result<RawOutput, String>) -> Reply {
    match answer {
        Ok(raw) => Ok(
            OutputModel {
                success: raw.success,
                stdout: text_in(raw.stdout@),
                stderr: text_in(raw.stderr@),
            },
        ),
        Err(e) => Err("failed to run "@ + program + ": "@ + e@),
    }
}

pub fn tell(program: &str, answer: &Result<RawOutput, String>) -> (r: Result<CmdOutput, String>)
    ensures
        reply(r) == told(program@, *answer),
{
    match answer {
        Ok(raw) => Ok(
            CmdOutput {
                success: raw.success,
                stdout: read_text(&raw.stdout),
                stderr: read_text(&raw.stderr),
            },
        ),
        Err(e) => Err(text::concat4("failed to run ", program, ": ", e.as_str())),
    }
}

/// Whether `argv` was run: its first word is started with the others, and the
/// reply is what came of that. Nothing is started for an empty one.
pub open spec fn ran(
    argv: Seq<Seq<char>>,
    before: Seq<Start>,
    after: Seq<Start>,
    r: Reply,
) -> bool {
    if argv.len() == 0 {
        after == before && r == Reply::Err("empty command"@)
    } else {
        &&& after.len() == before.len() + 1
        &&& after.drop_last() == before
        &&& after.last().program == argv[0]
        &&& after.last().args == argv.skip(1)
        &&& r == told(argv[0], after.last().answer)
    }
}

/// Runs commands for real.
pub struct RealRunner<S: Shell> {
    shell: S,
    asked: Ghost<Seq<Exchange>>,
}

impl<S: Shell> RealRunner<S> {
    /// Every program started so far.
    pub closed spec fn started(&self) -> Seq<Start> {
        self.shell.started()
    }

    pub fn new(shell: S) -> (r: RealRunner<S>)
        ensures
            r.exchanges() == Seq::<Exchange>::empty(),
            r.started() == shell.started(),
    {
        RealRunner { shell, asked: Ghost(Seq::empty()) }
    }
}

impl<S: Shell> CommandRunner for RealRunner<S> {
    closed spec fn exchanges(&self) -> Seq<Exchange> {
        self.asked@
    }

    open spec fn prepared(&self) -> Seq<(Vec<String>, CmdOutput)> {
        Seq::empty()
    }

    fn run(&mut self, argv: &Vec<String>) -> (r: Result<CmdOutput, String>)
        ensures
            ran(text::texts(argv@), old(self).started(), final(self).started(), reply(r)),
    {
        let r = if argv.len() == 0 {
            Err("empty command".to_owned())
        } else {
            let mut args: Vec<String> = Vec::new();
            let mut i: usize = 1;
            while i < argv.len()
                invariant
                    1 <= i <= argv.len(),
                    text::texts(args@) == text::texts(argv@).subrange(1, i as int),
                decreases argv.len() - i,
            {
                let ghost had = args@;
                args.push(argv[i].clone());
                assert(text::texts(args@) =~= text::texts(had).push(argv@[i as int]@));
                assert(text::texts(argv@).subrange(1, i + 1) =~= text::texts(argv@).subrange(
                    1,
                    i as int,
                ).push(argv@[i as int]@));
                i += 1;
            }
            let answer = self.shell.start(argv[0].as_str(), &args);
            let r = tell(argv[0].as_str(), &answer);
            assert(text::texts(argv@)[0] == argv@[0]@);
            assert(text::texts(args@) =~= text::texts(argv@).skip(1));
            assert(self.started().drop_last() =~= old(self).started());
            r
        };
        self.asked = Ghost(
            self.asked@.push(Exchange { argv: text::texts(argv@), reply: reply(r) }),
        );
        r
    }
}

/// The canned answer for `argv`: the last one given for it.
pub open spec fn canned_answer(
    canned: Seq<(Vec<String>, CmdOutput)>,
    argv: Seq<Seq<char>>,
) -> Option<OutputModel>
    decreases canned.len(),
{
    if canned.len() == 0 {
        None
    } else if text::texts(canned.last().0@) == argv {
        Some(canned.last().1@)
    } else {
        canned_answer(canned.drop_last(), argv)
    }
}

/// The text that `{:?}` writes for a list of strings with these texts.
pub uninterp spec fn debug_list(list: Seq<Seq<char>>) -> Seq<char>;

/// `format!` with `{:?}` on a `Vec<String>`. Claims only that the text it
/// writes depends on the texts in the list and nothing else.
#[verifier::external_body]
fn debug_text(list: &Vec<String>) -> (r: String)
    ensures
        r@ == debug_list(text::texts(list@)),
{
    format!("{list:?}")
}

pub open spec fn fake_reply(
    canned: Seq<(Vec<String>, CmdOutput)>,
    argv: Seq<Seq<char>>,
) -> Reply {
    match canned_answer(canned, argv) {
        Some(out) => Ok(out),
        None => Err("no canned response for "@ + debug_list(argv)),
    }
}

/// Returns a canned `CmdOutput` for an exact argv and records every call, so
/// that nothing is ever started.
pub struct FakeRunner {
    pub canned: Vec<(Vec<String>, CmdOutput)>,
    pub calls: Vec<Vec<String>>,
}

impl FakeRunner {
    pub fn new() -> (r: FakeRunner)
        ensures
            r.canned@.len() == 0,
            r.calls@.len() == 0,
    {
        FakeRunner { canned: Vec::new(), calls: Vec::new() }
    }

    pub fn with(self, argv: Vec<String>, output: CmdOutput) -> (r: FakeRunner)
        ensures
            r.calls == self.calls,
            r.canned@ == self.canned@.push((argv, output)),
            forall|other: Seq<Seq<char>>|
                #[trigger] canned_answer(r.canned@, other) == (if other == text::texts(argv@) {
                    Some(output@)
                } else {
                    canned_answer(self.canned@, other)
                }),
    {
        let FakeRunner { mut canned, calls } = self;
        let ghost before = canned@;
        canned.push((argv, output));
        assert(canned@.drop_last() =~= before);
        FakeRunner { canned, calls }
    }
}

fn find_answer(canned: &Vec<(Vec<String>, CmdOutput)>, argv: &Vec<String>) -> (r: Option<CmdOutput>)
    ensures
        match r {
            Some(out) => canned_answer(canned@, text::texts(argv@)) == Some(out@),
            None => canned_answer(canned@, text::texts(argv@)) is None,
        },
{
    let mut i: usize = canned.len();
    assert(canned@.take(canned@.len() as int) =~= canned@);
    while i > 0
        invariant
            i <= canned.len(),
            canned_answer(canned@, text::texts(argv@)) == canned_answer(
                canned@.take(i as int),
                text::texts(argv@),
            ),
        decreases i,
    {
        assert(canned@.take(i as int).drop_last() =~= canned@.take(i - 1));
        i -= 1;
        if text::same_list(&canned[i].0, argv) {
            return Some(canned[i].1.clone());
        }
    }
    None
}

impl CommandRunner for FakeRunner {
    open spec fn prepared(&self) -> Seq<(Vec<String>, CmdOutput)> {
        self.canned@
    }

    open spec fn exchanges(&self) -> Seq<Exchange> {
        Seq::new(
            self.calls@.len(),
            |i: int|
                Exchange {
                    argv: text::texts(self.calls@[i]@),
                    reply: fake_reply(self.canned@, text::texts(self.calls@[i]@)),
                },
        )
    }

    fn run(&mut self, argv: &Vec<String>) -> (r: Result<CmdOutput, String>)
        ensures
            reply(r) == fake_reply(old(self).canned@, text::texts(argv@)),
            final(self).canned == old(self).canned,
            final(self).calls@.len() == old(self).calls@.len() + 1,
            text::texts(final(self).calls@.last()@) == text::texts(argv@),
            final(self).calls@.drop_last() == old(self).calls@,
    {
        self.calls.push(text::copies(argv));
        let r = match find_answer(&self.canned, argv) {
            Some(out) => Ok(out),
            None => {
                let list = debug_text(argv);
                Err(text::concat2("no canned response for ", list.as_str()))
            },
        };
        assert(self.exchanges() =~= old(self).exchanges().push(
            (Exchange { argv: text::texts(argv@), reply: reply(r) }),
        ));
        assert(self.calls@.drop_last() =~= old(self).calls@);
        r
    }
}

/// The runner in use: canned answers in a sandbox, the real one otherwise.
pub enum AnyRunner<R: CommandRunner> {
    Fake(FakeRunner),
    Real(R),
}

impl<R: CommandRunner> CommandRunner for AnyRunner<R> {
    open spec fn exchanges(&self) -> Seq<Exchange> {
        match self {
            AnyRunner::Fake(fake) => fake.exchanges(),
            AnyRunner::Real(system) => system.exchanges(),
        }
    }

    open spec fn prepared(&self) -> Seq<(Vec<String>, CmdOutput)> {
        match self {
            AnyRunner::Fake(fake) => fake.prepared(),
            AnyRunner::Real(system) => system.prepared(),
        }
    }

    fn run(&mut self, argv: &Vec<String>) -> (r: Result<CmdOutput, String>)
        ensures
            *old(self) is Fake ==> *final(self) is Fake && final(self)->Fake_0.canned
                == old(self)->Fake_0.canned && reply(r) == fake_reply(
                old(self)->Fake_0.canned@,
                text::texts(argv@),
            ),
            *old(self) is Real ==> *final(self) is Real,
    {
        match self {
            AnyRunner::Fake(fake) => fake.run(argv),
            AnyRunner::Real(system) => system.run(argv),
        }
    }
}

/// The runner for `ctx`. In a sandbox the real one is dropped unused and
/// every command is answered from `ctx.fake_command_output`.
pub fn runner_for<R: CommandRunner>(ctx: &Ctx, system: R) -> (r: AnyRunner<R>)
    ensures
        !ctx.sandboxed ==> r == AnyRunner::Real(system),
        ctx.sandboxed ==> r is Fake && r->Fake_0.calls@.len() == 0 && forall|argv: Seq<Seq<char>>|
            #[trigger] canned_answer(r->Fake_0.canned@, argv) == (match ctx.fake_command_output {
                Some(canned) => canned_answer(canned@, argv),
                None => None,
            }),
{
    if !ctx.sandboxed {
        return AnyRunner::Real(system);
    }
    let mut fake = FakeRunner::new();
    if let Some(canned) = &ctx.fake_command_output {
        let mut i: usize = 0;
        assert(canned@.take(0) =~= Seq::empty());
        while i < canned.len()
            invariant
                i <= canned.len(),
                fake.calls@.len() == 0,
                forall|argv: Seq<Seq<char>>|
                    #[trigger] canned_answer(fake.canned@, argv) == canned_answer(
                        canned@.take(i as int),
                        argv,
                    ),
            decreases canned.len() - i,
        {
            assert(canned@.take(i + 1).drop_last() =~= canned@.take(i as int));
            fake = fake.with(text::copies(&canned[i].0), canned[i].1.clone());
            i += 1;
        }
        assert(canned@.take(canned@.len() as int) =~= canned@);
    }
    AnyRunner::Fake(fake)
}

// ------------------------------------------------------------------------ laws


/// A command is started once, word for word, and told of as it ended; an
/// empty one is refused.
pub proof fn law_commands_start_as_given(
    argv: Seq<Seq<char>>,
    before: Seq<Start>,
    after: Seq<Start>,
    r: Reply,
)
    requires
        ran(argv, before, after, r),
    ensures
        argv.len() == 0 ==> after == before && r is Err,
        argv.len() > 0 ==> {
            let last = after.last();
            &&& after == before.push(last)
            &&& seq![last.program] + last.args == argv
            &&& last.answer is Ok <==> r is Ok
            &&& last.answer is Ok ==> r->Ok_0.success == last.answer->Ok_0.success
                && r->Ok_0.stdout == text_in(last.answer->Ok_0.stdout@) && r->Ok_0.stderr
                == text_in(last.answer->Ok_0.stderr@)
            &&& last.answer is Err ==> r->Err_0 == "failed to run "@ + last.program + ": "@
                + last.answer->Err_0@
        },
{
    if argv.len() > 0 {
        assert(after =~= before.push(after.last()));
        assert(seq![after.last().program] + after.last().args =~= argv);
    }
}

/// The answer that was given last for a command counts, and stands for that
/// command only.
pub proof fn law_the_last_answer_counts(
    canned: Seq<(Vec<String>, CmdOutput)>,
    given: (Vec<String>, CmdOutput),
    other: Seq<Seq<char>>,
)
    ensures
        fake_reply(canned.push(given), text::texts(given.0@)) == Reply::Ok(given.1@),
        other != text::texts(given.0@) ==> fake_reply(canned.push(given), other) == fake_reply(
            canned,
            other,
        ),
        fake_reply(Seq::empty(), other) is Err,
{
    assert(canned.push(given).drop_last() =~= canned);
}

} // verus!

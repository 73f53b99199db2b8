//! A machine that is out of reach.

use vstd::prelude::*;

use crate::analyze::trash::{Claim, TrashHands, TrashTouch};
use crate::exec::{Hands, Sight, Touch};
use crate::host::Host;
use crate::privilege::{HelperHands, HelperResult, HelperTouch, Manifest};
use crate::runner::{RawOutput, Shell, Start};
use crate::safety::deleter::DeleteReport;
use crate::text;

verus! {

pub const OUT_OF_REACH: &'static str = "the machine is out of reach";

/// Whatever is asked of it fails, and nothing is found on its disk. `E` is
/// what it remembers of each request.
pub struct Offline<E> {
    log: Ghost<Seq<E>>,
}

impl<E> Offline<E> {
    /// Everything asked so far, oldest first.
    pub closed spec fn log(&self) -> Seq<E> {
        self.log@
    }

    pub fn new() -> (r: Offline<E>)
        ensures
            r.log() == Seq::<E>::empty(),
    {
        Offline { log: Ghost(Seq::empty()) }
    }
}

/// Whether this says that the machine is out of reach.
pub open spec fn out_of_reach<A>(r: Result<A, String>) -> bool {
    r is Err && r->Err_0@ == OUT_OF_REACH@
}

/// Whether a deletion frees nothing, since the machine is out of reach.
pub open spec fn undeleted(report: DeleteReport, path: Seq<char>) -> bool {
    &&& report.bytes_freed == 0
    &&& report.errors@.len() == 1
    &&& report.errors@[0].0@ == path
    &&& report.errors@[0].1@ == OUT_OF_REACH@
}

fn nothing_deleted(path: &str) -> (r: DeleteReport)
    ensures
        undeleted(r, path@),
{
    let mut errors: Vec<(String, String)> = Vec::new();
    errors.push((path.to_owned(), OUT_OF_REACH.to_owned()));
    DeleteReport { bytes_freed: 0, files: 0, errors }
}

impl Shell for Offline<Start> {
    open spec fn started(&self) -> Seq<Start> {
        self.log()
    }

    fn start(&mut self, program: &str, args: &Vec<String>) -> (r: Result<RawOutput, String>)
        ensures
            out_of_reach(r),
    {
        let r = Err(OUT_OF_REACH.to_owned());
        self.log = Ghost(
            self.log@.push(Start { program: program@, args: text::texts(args@), answer: r }),
        );
        r
    }
}

impl Hands for Offline<Touch> {
    open spec fn touches(&self) -> Seq<Touch> {
        self.log()
    }

    fn look(&mut self, path: &str, allowed: &Vec<String>) -> (r: Result<Sight, String>)
        ensures
            out_of_reach(r),
    {
        let r = Err(OUT_OF_REACH.to_owned());
        self.log = Ghost(
            self.log@.push(
                Touch::Look { path: path@, allowed: text::texts(allowed@), answer: r },
            ),
        );
        r
    }

    fn delete_tree(&mut self, path: &str) -> (r: DeleteReport)
        ensures
            undeleted(r, path@),
    {
        let r = nothing_deleted(path);
        self.log = Ghost(self.log@.push(Touch::Delete { path: path@, report: r }));
        r
    }

    fn ask_helper(&mut self, manifest: &Manifest) -> (r: Result<Vec<HelperResult>, String>)
        ensures
            out_of_reach(r),
    {
        let r = Err(OUT_OF_REACH.to_owned());
        self.log = Ghost(self.log@.push(Touch::Ask { manifest: *manifest, answer: r }));
        r
    }
}

impl HelperHands for Offline<HelperTouch> {
    open spec fn helper_touches(&self) -> Seq<HelperTouch> {
        self.log()
    }

    fn look(&mut self, path: &str) -> (r: Host)
        ensures
            r.entries@.len() == 0,
    {
        let r = Host::new();
        self.log = Ghost(
            self.log@.push(HelperTouch::Look { path: path@, host: r }),
        );
        r
    }

    fn delete_tree(&mut self, path: &str) -> (r: DeleteReport)
        ensures
            undeleted(r, path@),
    {
        let r = nothing_deleted(path);
        self.log = Ghost(
            self.log@.push(HelperTouch::Delete { path: path@, report: r }),
        );
        r
    }

    fn tell(&mut self, result: &HelperResult) -> (r: Result<(), String>)
        ensures
            out_of_reach(r),
    {
        let r = Err(OUT_OF_REACH.to_owned());
        self.log = Ghost(
            self.log@.push(HelperTouch::Tell { result: *result, answer: r }),
        );
        r
    }
}

impl TrashHands for Offline<TrashTouch> {
    open spec fn trash_touches(&self) -> Seq<TrashTouch> {
        self.log()
    }

    fn look(&mut self, start: &str, path: &str) -> (r: Result<Sight, String>)
        ensures
            out_of_reach(r),
    {
        let r = Err(OUT_OF_REACH.to_owned());
        self.log = Ghost(
            self.log@.push(
                TrashTouch::Look { start: start@, path: path@, answer: r },
            ),
        );
        r
    }

    fn make_dir(&mut self, dir: &str) -> (r: Result<(), String>)
        ensures
            out_of_reach(r),
    {
        let r = Err(OUT_OF_REACH.to_owned());
        self.log = Ghost(
            self.log@.push(TrashTouch::MakeDir { dir: dir@, answer: r }),
        );
        r
    }

    fn device_of(&mut self, path: &str) -> (r: Result<u64, String>)
        ensures
            out_of_reach(r),
    {
        let r = Err(OUT_OF_REACH.to_owned());
        self.log = Ghost(
            self.log@.push(TrashTouch::DeviceOf { path: path@, answer: r }),
        );
        r
    }

    fn device_of_dir(&mut self, dir: &str) -> (r: Result<u64, String>)
        ensures
            out_of_reach(r),
    {
        let r = Err(OUT_OF_REACH.to_owned());
        self.log = Ghost(
            self.log@.push(TrashTouch::DeviceOfDir { dir: dir@, answer: r }),
        );
        r
    }

    fn current_dir(&mut self) -> (r: Result<String, String>)
        ensures
            out_of_reach(r),
    {
        let r = Err(OUT_OF_REACH.to_owned());
        self.log = Ghost(
            self.log@.push(TrashTouch::CurrentDir { answer: r }),
        );
        r
    }

    fn claim(&mut self, path: &str) -> (r: Claim)
        ensures
            r matches Claim::Failed(e) && e@ == OUT_OF_REACH@,
    {
        let r = Claim::Failed(OUT_OF_REACH.to_owned());
        self.log = Ghost(
            self.log@.push(TrashTouch::Claim { path: path@, answer: r }),
        );
        r
    }

    fn write(&mut self, path: &str, contents: &str) -> (r: Result<(), String>)
        ensures
            out_of_reach(r),
    {
        let r = Err(OUT_OF_REACH.to_owned());
        self.log = Ghost(
            self.log@.push(
                TrashTouch::Write { path: path@, contents: contents@, answer: r },
            ),
        );
        r
    }

    fn rename(&mut self, from: &str, to: &str) -> (r: Result<(), String>)
        ensures
            out_of_reach(r),
    {
        let r = Err(OUT_OF_REACH.to_owned());
        self.log = Ghost(
            self.log@.push(
                TrashTouch::Rename { from: from@, to: to@, answer: r },
            ),
        );
        r
    }

    fn remove_file(&mut self, path: &str) {
        self.log = Ghost(
            self.log@.push(TrashTouch::RemoveFile { path: path@ }),
        );
    }
}

} // verus!

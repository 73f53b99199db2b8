//! The audit trail: one record for everything that was done or left undone.

use vstd::prelude::*;

use crate::paths;
use crate::text;

verus! {

broadcast use vstd::seq::group_seq_axioms;

#[derive(Debug, PartialEq)]
pub struct Record {
    pub ts: String,
    pub run_id: String,
    pub cmd: String,
    pub rule: String,
    pub action: String,
    pub argv: Option<Vec<String>>,
    pub paths: Option<Vec<String>>,
    pub sudo: bool,
    pub dry_run: bool,
    pub bytes_freed: u64,
    pub outcome: String,
}

/// A record as a mathematical value.
pub struct RecordModel {
    pub ts: Seq<char>,
    pub run_id: Seq<char>,
    pub cmd: Seq<char>,
    pub rule: Seq<char>,
    pub action: Seq<char>,
    pub argv: Option<Seq<Seq<char>>>,
    pub paths: Option<Seq<Seq<char>>>,
    pub sudo: bool,
    pub dry_run: bool,
    pub bytes_freed: u64,
    pub outcome: Seq<char>,
}

pub open spec fn opt_list(o: Option<Vec<String>>) -> Option<Seq<Seq<char>>> {
    match o {
        Some(v) => Some(text::texts(v@)),
        None => None,
    }
}

impl View for Record {
    type V = RecordModel;

    open spec fn view(&self) -> RecordModel {
        RecordModel {
            ts: self.ts@,
            run_id: self.run_id@,
            cmd: self.cmd@,
            rule: self.rule@,
            action: self.action@,
            argv: opt_list(self.argv),
            paths: opt_list(self.paths),
            sudo: self.sudo,
            dry_run: self.dry_run,
            bytes_freed: self.bytes_freed,
            outcome: self.outcome@,
        }
    }
}

pub fn copy_opt_list(o: &Option<Vec<String>>) -> (r: Option<Vec<String>>)
    ensures
        opt_list(r) == opt_list(*o),
{
    match o {
        Some(v) => Some(text::copies(v)),
        None => None,
    }
}

impl Clone for Record {
    fn clone(&self) -> (r: Self)
        ensures
            r@ == self@,
    {
        Record {
            ts: self.ts.clone(),
            run_id: self.run_id.clone(),
            cmd: self.cmd.clone(),
            rule: self.rule.clone(),
            action: self.action.clone(),
            argv: copy_opt_list(&self.argv),
            paths: copy_opt_list(&self.paths),
            sudo: self.sudo,
            dry_run: self.dry_run,
            bytes_freed: self.bytes_freed,
            outcome: self.outcome.clone(),
        }
    }
}

/// Whether a text has this shape: a digit for every `#`, and else the same
/// characters.
pub open spec fn shaped(s: Seq<char>, shape: Seq<char>) -> bool {
    &&& s.len() == shape.len()
    &&& forall|i: int|
        0 <= i < s.len() ==> if shape[i] == '#' {
            '0' <= #[trigger] s[i] <= '9'
        } else {
            s[i] == shape[i]
        }
}

/// Whether a text is a fraction of a second: nothing, or a point and up to
/// nine digits.
pub open spec fn fraction(s: Seq<char>) -> bool {
    s.len() > 0 ==> {
        &&& 2 <= s.len() <= 10
        &&& s[0] == '.'
        &&& forall|i: int| 1 <= i < s.len() ==> '0' <= #[trigger] s[i] <= '9'
    }
}

/// Whether a text is a moment in universal time: the date, the time to the
/// second and below, and a `Z`. A year before the first stands behind `-00`.
pub open spec fn stamp(s: Seq<char>) -> bool {
    let rest = if text::starts_with(s, "-00"@) {
        s.skip(3)
    } else {
        s
    };
    &&& rest.len() >= 20
    &&& shaped(rest.take(19), "####-##-##T##:##:##"@)
    &&& fraction(rest.subrange(19, rest.len() - 1))
    &&& rest.last() == 'Z'
}

/// `jiff::Timestamp::now`, as text. The moment is whatever the clock says;
/// claimed is how it is written.
#[verifier::external_body]
fn now_text() -> (r: String)
    ensures
        stamp(r@),
{
    jiff::Timestamp::now().to_string()
}

impl Record {
    /// A record of this moment.
    pub fn now(
        run_id: String,
        cmd: String,
        rule: String,
        action: String,
        argv: Option<Vec<String>>,
        paths: Option<Vec<String>>,
        sudo: bool,
        dry_run: bool,
        bytes_freed: u64,
        outcome: String,
    ) -> (r: Record)
        ensures
            stamp(r.ts@),
            r@ == (RecordModel {
                ts: r.ts@,
                run_id: run_id@,
                cmd: cmd@,
                rule: rule@,
                action: action@,
                argv: opt_list(argv),
                paths: opt_list(paths),
                sudo,
                dry_run,
                bytes_freed,
                outcome: outcome@,
            }),
    {
        Record {
            ts: now_text(),
            run_id,
            cmd,
            rule,
            action,
            argv,
            paths,
            sudo,
            dry_run,
            bytes_freed,
            outcome,
        }
    }
}

pub open spec fn records(v: Seq<Record>) -> Seq<RecordModel> {
    Seq::new(v.len(), |i: int| v[i]@)
}

/// A record that was handed to the audit trail, and why it could not be
/// written if it could not.
pub struct Entry {
    pub record: RecordModel,
    pub error: Option<Seq<char>>,
}

pub open spec fn error_text(r: Result<(), String>) -> Option<Seq<char>> {
    match r {
        Ok(_) => None,
        Err(e) => Some(e@),
    }
}

/// Whether every record handed over says when it was made.
pub open spec fn all_stamped(entries: Seq<Entry>) -> bool {
    forall|k: int| 0 <= k < entries.len() ==> stamp((#[trigger] entries[k]).record.ts)
}

/// What the audit trail held when it was read, or why it could not be read.
pub type Found = Result<Seq<RecordModel>, Seq<char>>;

pub open spec fn found(r: Result<Vec<Record>, String>) -> Found {
    match r {
        Ok(list) => Ok(records(list@)),
        Err(e) => Err(e@),
    }
}

/// One reading of the audit trail: how many records had been handed over by
/// that time, and what was found.
pub struct Reading {
    pub after: nat,
    pub found: Found,
}

/// Whether the audit trail was read once more, when all of `entries` had been
/// handed over.
pub open spec fn read_after(
    before: Seq<Reading>,
    after: Seq<Reading>,
    entries: Seq<Entry>,
) -> bool {
    &&& after.len() == before.len() + 1
    &&& after.drop_last() == before
    &&& after.last().after == entries.len()
}

/// The records handed over.
pub open spec fn handed(entries: Seq<Entry>) -> Seq<RecordModel> {
    Seq::new(entries.len(), |i: int| entries[i].record)
}

/// Whether all of them could be written.
pub open spec fn all_written(entries: Seq<Entry>) -> bool {
    forall|k: int| 0 <= k < entries.len() ==> (#[trigger] entries[k]).error is None
}

/// The records that could be written, of those handed over.
pub open spec fn written(entries: Seq<Entry>) -> Seq<RecordModel>
    decreases entries.len(),
{
    if entries.len() == 0 {
        Seq::empty()
    } else if entries.last().error is None {
        written(entries.drop_last()).push(entries.last().record)
    } else {
        written(entries.drop_last())
    }
}

/// Whether a reading gives back what was there before, and behind it what
/// has been handed over and could be written.
pub open spec fn gives_back(
    earlier: Seq<RecordModel>,
    entries: Seq<Entry>,
    reading: Reading,
) -> bool {
    &&& reading.after <= entries.len()
    &&& reading.found == Ok::<Seq<RecordModel>, Seq<char>>(
        earlier + written(entries.take(reading.after as int)),
    )
}

/// Where records go.
pub trait AuditLog {
    /// Everything handed over so far, oldest first.
    ///
    /// The log is for proofs and no part of the running program. A type that
    /// Verus does not see takes over this default and keeps nothing.
    closed spec fn entries(&self) -> Seq<Entry> {
        Seq::empty()
    }

    /// What it was found to hold, each time it was read, and how much had been
    /// handed over by then.
    closed spec fn readings(&self) -> Seq<Reading> {
        Seq::empty()
    }

    fn append(&mut self, record: &Record) -> (r: Result<(), String>)
        ensures
            final(self).entries() == old(self).entries().push(
                (Entry { record: record@, error: error_text(r) }),
            ),
            final(self).readings() == old(self).readings(),
    ;

    /// All that it holds, oldest first, from earlier runs too.
    fn read_all(&mut self) -> (r: Result<Vec<Record>, String>)
        ensures
            final(self).entries() == old(self).entries(),
            final(self).readings() == old(self).readings().push(
                (Reading { after: old(self).entries().len(), found: found(r) }),
            ),
    ;
}

/// Keeps the records in memory. With `failure` set it keeps what it is given
/// but says that it could not.
pub struct MemoryLog {
    pub records: Vec<Record>,
    pub failure: Option<String>,
    pub read: Ghost<Seq<Reading>>,
}

impl MemoryLog {
    pub fn new() -> (r: MemoryLog)
        ensures
            r.records@.len() == 0,
            r.failure is None,
    {
        MemoryLog { records: Vec::new(), failure: None, read: Ghost(Seq::empty()) }
    }
}

impl AuditLog for MemoryLog {
    open spec fn readings(&self) -> Seq<Reading> {
        self.read@
    }

    fn read_all(&mut self) -> (r: Result<Vec<Record>, String>)
        ensures
            found(r) == Ok::<Seq<RecordModel>, Seq<char>>(records(old(self).records@)),
            final(self).records == old(self).records,
            final(self).failure == old(self).failure,
    {
        let mut out: Vec<Record> = Vec::new();
        let mut i: usize = 0;
        assert(records(out@) =~= records(self.records@).take(0));
        while i < self.records.len()
            invariant
                i <= self.records.len(),
                *self == *old(self),
                records(out@) == records(self.records@).take(i as int),
            decreases self.records.len() - i,
        {
            let copy = self.records[i].clone();
            let ghost had = out@;
            out.push(copy);
            assert(records(out@) =~= records(had).push(self.records@[i as int]@));
            assert(records(out@) =~= records(self.records@).take(i + 1));
            i += 1;
        }
        assert(records(self.records@).take(i as int) =~= records(self.records@));
        let r = Ok(out);
        self.read = Ghost(
            self.read@.push(Reading { after: self.entries().len(), found: found(r) }),
        );
        assert(self.entries() =~= old(self).entries());
        r
    }

    open spec fn entries(&self) -> Seq<Entry> {
        Seq::new(
            self.records@.len(),
            |i: int| Entry { record: self.records@[i]@, error: text::opt_text(self.failure) },
        )
    }

    fn append(&mut self, record: &Record) -> (r: Result<(), String>)
        ensures
            records(final(self).records@) == records(old(self).records@).push(record@),
            final(self).failure == old(self).failure,
            error_text(r) == text::opt_text(old(self).failure),
    {
        let copy = record.clone();
        self.records.push(copy);
        let r = match &self.failure {
            Some(e) => Err(e.clone()),
            None => Ok(()),
        };
        assert(self.entries() =~= old(self).entries().push(
            (Entry { record: record@, error: error_text(r) }),
        ));
        assert(records(self.records@) =~= records(old(self).records@).push(record@));
        r
    }
}

/// The file of the audit trail.
pub struct Journal {
    pub path: String,
}

impl Journal {
    pub fn new(state_dir: &str) -> (r: Journal)
        ensures
            r.path@ == paths::joined(state_dir@, "history.jsonl"@),
    {
        Journal { path: paths::join(state_dir, "history.jsonl") }
    }

    /// Where a journal that has grown past `max_bytes` goes: beside it. A
    /// smaller one stays.
    pub fn rotate_if_needed(&self, len: u64, max_bytes: u64) -> (r: Option<String>)
        ensures
            text::opt_text(r) == (if len <= max_bytes {
                None
            } else {
                Some(
                    match paths::parent(self.path@) {
                        Some(dir) => paths::joined(dir, "history.1.jsonl"@),
                        None => "history.1.jsonl"@,
                    },
                )
            }),
    {
        if len <= max_bytes {
            return None;
        }
        match paths::parent_of(self.path.as_str()) {
            Some(dir) => Some(paths::join(dir.as_str(), "history.1.jsonl")),
            None => Some("history.1.jsonl".to_owned()),
        }
    }
}

/// The lines among the first `n` that hold anything.
pub open spec fn filled(lines: Seq<Seq<char>>, n: int) -> Seq<Seq<char>>
    decreases n,
{
    if n <= 0 {
        Seq::empty()
    } else if text::trim(lines[n - 1]).len() == 0 {
        filled(lines, n - 1)
    } else {
        filled(lines, n - 1).push(lines[n - 1])
    }
}

/// The lines of a file of records that hold one each: all but the blank
/// ones.
pub fn record_lines(contents: &str) -> (r: Vec<String>)
    ensures
        text::texts(r@) == filled(text::lines(contents@), text::lines(contents@).len() as int),
{
    let list = text::split_lines(contents);
    let ghost all = text::texts(list@);
    let mut out: Vec<String> = Vec::new();
    let mut i: usize = 0;
    assert(text::texts(out@) =~= Seq::empty());
    assert(all.len() == list.len());
    while i < list.len()
        invariant
            i <= list.len(),
            all == text::texts(list@),
            text::texts(out@) == filled(all, i as int),
        decreases list.len() - i,
    {
        assert(all[i as int] == list@[i as int]@);
        let line = text::trimmed(list[i].as_str());
        let ghost had = out@;
        if !line.as_str().is_empty() {
            out.push(list[i].clone());
            assert(text::texts(out@) =~= text::texts(had).push(all[i as int]));
        }
        i += 1;
    }
    out
}

/// The records among the first `n` lines that could be read.
pub open spec fn readable(lines: Seq<Option<Record>>, n: int) -> Seq<RecordModel>
    decreases n,
{
    if n <= 0 {
        Seq::empty()
    } else {
        match lines[n - 1] {
            Some(record) => readable(lines, n - 1).push(record@),
            None => readable(lines, n - 1),
        }
    }
}

/// Takes in the lines of a journal: a line that could not be read is skipped
/// and counted.
pub fn gather(lines: Vec<Option<Record>>) -> (r: (Vec<Record>, usize))
    ensures
        records(r.0@) == readable(lines@, lines@.len() as int),
        r.1 == lines@.len() - r.0@.len(),
{
    let mut out: Vec<Record> = Vec::new();
    let mut skipped: usize = 0;
    let mut i: usize = 0;
    assert(records(out@) =~= Seq::empty());
    while i < lines.len()
        invariant
            i <= lines.len(),
            out.len() <= i,
            records(out@) == readable(lines@, i as int),
            skipped == i - out.len(),
        decreases lines.len() - i,
    {
        let ghost had = out@;
        match &lines[i] {
            Some(record) => {
                out.push(record.clone());
                assert(records(out@) =~= records(had).push(lines@[i as int]->0@));
            },
            None => {
                skipped += 1;
            },
        }
        i += 1;
    }
    (out, skipped)
}

// ------------------------------------------------------------------------ laws

/// What could be written is what was handed over, unless something could not.
pub proof fn lemma_all_written(entries: Seq<Entry>)
    requires
        all_written(entries),
    ensures
        written(entries) == handed(entries),
    decreases entries.len(),
{
    if entries.len() > 0 {
        assert forall|k: int| 0 <= k < entries.drop_last().len() implies (
        #[trigger] entries.drop_last()[k]).error is None by {
            assert(entries.drop_last()[k] == entries[k]);
        }
        lemma_all_written(entries.drop_last());
        assert(entries[entries.len() - 1].error is None);
        assert(handed(entries) =~= handed(entries.drop_last()).push(entries.last().record));
    } else {
        assert(handed(entries) =~= Seq::empty());
    }
}

pub proof fn lemma_written_adds(a: Seq<Entry>, b: Seq<Entry>)
    ensures
        written(a + b) == written(a) + written(b),
    decreases b.len(),
{
    if b.len() == 0 {
        assert(a + b =~= a);
        assert(written(a) + written(b) =~= written(a));
    } else {
        lemma_written_adds(a, b.drop_last());
        assert((a + b).drop_last() =~= a + b.drop_last());
        assert(written(a + b) =~= written(a) + written(b));
    }
}

/// What was written was handed over.
pub proof fn lemma_written_was_handed(entries: Seq<Entry>, i: int)
    requires
        0 <= i < written(entries).len(),
    ensures
        exists|k: int| 0 <= k < entries.len() && (#[trigger] entries[k]).record == written(entries)[i],
    decreases entries.len(),
{
    let rest = entries.drop_last();
    if i < written(rest).len() {
        lemma_written_was_handed(rest, i);
        let k = choose|k: int|
            0 <= k < rest.len() && (#[trigger] rest[k]).record == written(rest)[i];
        assert(entries[k] == rest[k]);
    } else {
        assert(entries[entries.len() - 1].record == written(entries)[i]);
    }
}

/// The log in memory gives back all that it was handed.
pub proof fn law_memory_gives_back(log: MemoryLog, reading: Reading)
    requires
        log.failure is None,
        reading.after == log.entries().len(),
        reading.found == Ok::<Seq<RecordModel>, Seq<char>>(records(log.records@)),
    ensures
        gives_back(Seq::empty(), log.entries(), reading),
{
    lemma_all_written(log.entries());
    assert(handed(log.entries()) =~= records(log.records@));
    assert(log.entries().take(reading.after as int) =~= log.entries());
    assert(Seq::<RecordModel>::empty() + records(log.records@) =~= records(log.records@));
}

} // verus!

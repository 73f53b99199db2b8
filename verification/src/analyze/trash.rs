//! Moves a path into the trash: what is refused, what it is called there and
//! what is written beside it.

use vstd::prelude::*;
use vstd::utf8::encode_utf8;

use crate::ctx::Ctx;
use crate::exec::{env_seen, goes_on, since, Sight};
use crate::host::Host;
use crate::paths;
use crate::safety::journal::{shaped, stamp, AuditLog, Entry, Record, RecordModel};
use crate::safety::protected::{refusal_text, validate_deletable, verdict, SafetyEnv, Tier};
use crate::text;
use crate::text::{concat2, concat3, concat4};

verus! {

broadcast use vstd::seq::group_seq_axioms;

/// Whether two device numbers are of the same filesystem.
pub fn same_device(a: u64, b: u64) -> (r: bool)
    ensures
        r == (a == b),
{
    a == b
}

// ---------------------------------------------------------------- percent encoding

/// Whether a byte stands for itself: ASCII letters, digits and `/-_.~`.
pub open spec fn literal(b: u8) -> bool {
    ||| 48 <= b <= 57
    ||| 65 <= b <= 90
    ||| 97 <= b <= 122
    ||| b == 47
    ||| b == 45
    ||| b == 95
    ||| b == 46
    ||| b == 126
}

fn is_literal(b: u8) -> (r: bool)
    ensures
        r == literal(b),
{
    (48 <= b && b <= 57) || (65 <= b && b <= 90) || (97 <= b && b <= 122) || b == 47 || b == 45
        || b == 95 || b == 46 || b == 126
}

/// The upper case hexadecimal digit of a number below sixteen.
pub open spec fn hex_digit(n: int) -> char {
    if n < 10 {
        (48 + n) as char
    } else {
        (55 + n) as char
    }
}

fn hex_char(n: u8) -> (r: char)
    requires
        n < 16,
    ensures
        r == hex_digit(n as int),
{
    let b: u8 = if n < 10 {
        48 + n
    } else {
        55 + n
    };
    b as char
}

/// How a byte is written.
pub open spec fn encoded_byte(b: u8) -> Seq<char> {
    if literal(b) {
        seq![b as char]
    } else {
        seq!['%', hex_digit(b as int / 16), hex_digit(b as int % 16)]
    }
}

/// How the bytes from `from` on are written.
pub open spec fn encoded(bytes: Seq<u8>, from: int) -> Seq<char>
    decreases bytes.len() - from,
{
    if from < 0 || from >= bytes.len() {
        Seq::empty()
    } else {
        encoded_byte(bytes[from]) + encoded(bytes, from + 1)
    }
}

/// A path for the `Path=` line: every byte that is not plain is written as
/// `%` and two digits, each byte of a longer character on its own.
pub fn percent_encode(path: &str) -> (r: String)
    ensures
        r@ == encoded(encode_utf8(path@), 0),
{
    let bytes = path.as_bytes();
    let mut out = String::new();
    let mut i: usize = 0;
    while i < bytes.len()
        invariant
            i <= bytes.len(),
            out@ + encoded(bytes@, i as int) == encoded(bytes@, 0),
        decreases bytes.len() - i,
    {
        let ghost had = out@;
        let b: u8 = bytes[i];
        if is_literal(b) {
            out.push(b as char);
            assert(out@ =~= had + encoded_byte(b));
        } else {
            out.push('%');
            out.push(hex_char(b / 16));
            out.push(hex_char(b % 16));
            assert(out@ =~= had + encoded_byte(b));
        }
        assert(out@ + encoded(bytes@, i + 1) =~= had + encoded(bytes@, i as int));
        i += 1;
    }
    assert(out@ =~= encoded(bytes@, 0));
    out
}

/// The number of a hexadecimal digit.
pub open spec fn hex_value(c: char) -> int {
    if c as u32 <= 57 {
        c as u32 - 48
    } else {
        c as u32 - 55
    }
}

/// The bytes that a text written so stands for, from `from` on.
pub open spec fn decoded(s: Seq<char>, from: int) -> Seq<u8>
    decreases s.len() - from,
{
    if from < 0 || from >= s.len() {
        Seq::empty()
    } else if s[from] == '%' && from + 2 < s.len() {
        seq![(hex_value(s[from + 1]) * 16 + hex_value(s[from + 2])) as u8] + decoded(s, from + 3)
    } else {
        seq![s[from] as u8] + decoded(s, from + 1)
    }
}

proof fn lemma_decoded_shifts(a: Seq<char>, s: Seq<char>, k: int)
    requires
        0 <= k <= s.len(),
    ensures
        decoded(a + s, a.len() + k) == decoded(s, k),
    decreases s.len() - k,
{
    let t = a + s;
    if k < s.len() {
        assert(t[a.len() + k] == s[k]);
        if s[k] == '%' && k + 2 < s.len() {
            assert(t[a.len() + k + 1] == s[k + 1]);
            assert(t[a.len() + k + 2] == s[k + 2]);
            lemma_decoded_shifts(a, s, k + 3);
        } else {
            lemma_decoded_shifts(a, s, k + 1);
        }
    }
}

proof fn lemma_hex(n: int)
    requires
        0 <= n < 16,
    ensures
        hex_value(hex_digit(n)) == n,
{
}

/// What was written is read back: the text stands for the very bytes.
pub proof fn law_percent_encoding_reads_back(bytes: Seq<u8>, from: int)
    requires
        0 <= from <= bytes.len(),
    ensures
        decoded(encoded(bytes, from), 0) == bytes.skip(from),
    decreases bytes.len() - from,
{
    if from < bytes.len() {
        law_percent_encoding_reads_back(bytes, from + 1);
        let b = bytes[from];
        let head = encoded_byte(b);
        let rest = encoded(bytes, from + 1);
        let s = head + rest;
        lemma_decoded_shifts(head, rest, 0);
        if literal(b) {
            assert(s[0] == b as char);
            assert((b as char) as u8 == b);
            assert(s[0] != '%');
            assert(decoded(s, 0) =~= seq![b] + decoded(rest, 0));
        } else {
            lemma_hex(b as int / 16);
            lemma_hex(b as int % 16);
            assert(s[0] == '%');
            assert(s[1] == hex_digit(b as int / 16));
            assert(s[2] == hex_digit(b as int % 16));
            assert((b as int / 16) * 16 + b as int % 16 == b);
            assert(decoded(s, 0) =~= seq![b] + decoded(rest, 0));
        }
        assert(seq![b] + bytes.skip(from + 1) =~= bytes.skip(from));
    } else {
        assert(decoded(encoded(bytes, from), 0) =~= bytes.skip(from));
    }
}

// ------------------------------------------------------------------------ the names

/// The names to try for a file in the trash: its own, then with `.2`, `.3`
/// and so on.
pub open spec fn nth_name(file_name: Seq<char>, n: nat) -> Seq<char> {
    if n == 0 {
        file_name
    } else {
        file_name + "."@ + text::decimal(n + 1)
    }
}

pub fn candidate_name(file_name: &str, n: u64) -> (r: String)
    requires
        n < u64::MAX,
    ensures
        r@ == nth_name(file_name@, n as nat),
{
    if n == 0 {
        file_name.to_owned()
    } else {
        let digits = text::decimal_text(n + 1);
        concat3(file_name, ".", digits.as_str())
    }
}

/// No name is tried twice.
pub proof fn law_trash_names_differ(file_name: Seq<char>, m: nat, n: nat)
    requires
        m != n,
    ensures
        nth_name(file_name, m) != nth_name(file_name, n),
{
    reveal_strlit(".");
    let a = nth_name(file_name, m);
    let b = nth_name(file_name, n);
    if a == b {
        let k = file_name.len() as int + 1;
        if m > 0 && n > 0 {
            assert(a.skip(k) =~= text::decimal(m + 1));
            assert(b.skip(k) =~= text::decimal(n + 1));
            text::lemma_decimal(m + 1);
            text::lemma_decimal(n + 1);
        } else {
            assert(a.len() == b.len());
        }
    }
}

// ------------------------------------------------------------------------- the plan

/// What goes on record for an attempt to trash `path`, made at `ts`.
pub open spec fn trash_record(
    ts: Seq<char>,
    path: Seq<char>,
    run_id: Seq<char>,
    bytes: u64,
    outcome: Seq<char>,
) -> RecordModel {
    RecordModel {
        ts,
        run_id,
        cmd: "analyze"@,
        rule: "analyze.trash"@,
        action: "trash"@,
        argv: None,
        paths: Some(seq![path]),
        sudo: false,
        dry_run: false,
        bytes_freed: bytes,
        outcome,
    }
}

pub fn record(path: &str, run_id: &str, bytes: u64, outcome: &str) -> (r: Record)
    ensures
        stamp(r.ts@),
        r@ == trash_record(r.ts@, path@, run_id@, bytes, outcome@),
{
    Record::now(
        run_id.to_owned(),
        "analyze".to_owned(),
        "analyze.trash".to_owned(),
        "trash".to_owned(),
        None,
        Some(text::list1(path)),
        false,
        false,
        bytes,
        outcome.to_owned(),
    )
}

/// Why a path is not trashed: by the same checks as a deletion, inside the
/// directory that the session was started on and nowhere else.
pub open spec fn refused(
    start: Seq<char>,
    path: Seq<char>,
    env: &SafetyEnv,
    host: &Host,
) -> Option<Seq<char>> {
    match verdict(path, seq![start], Tier::User, env, host) {
        Some(refusal) => Some("refused: "@ + refusal_text(refusal)),
        None => None,
    }
}

pub fn refusal(start: &str, path: &str, env: &SafetyEnv, host: &Host) -> (r: Option<String>)
    ensures
        text::opt_text(r) == refused(start@, path@, env, host),
{
    let allowed = text::list1(start);
    match validate_deletable(path, &allowed, Tier::User, env, host) {
        Ok(_) => None,
        Err(refusal) => Some(concat2("refused: ", refusal.message().as_str())),
    }
}

/// Where the trash is: always below the home directory.
pub fn trash_dirs(ctx: &Ctx) -> (r: (String, String))
    ensures
        r.0@ == paths::joined(ctx.home@, ".local/share/Trash/files"@),
        r.1@ == paths::joined(ctx.home@, ".local/share/Trash/info"@),
{
    (
        paths::join(ctx.home.as_str(), ".local/share/Trash/files"),
        paths::join(ctx.home.as_str(), ".local/share/Trash/info"),
    )
}

/// What is written beside a path in the trash.
pub open spec fn info_text(path: Seq<char>, cwd: Seq<char>, date: Seq<char>) -> Seq<char> {
    let whole = if paths::absolute(path) {
        path
    } else {
        paths::joined(cwd, path)
    };
    "[Trash Info]\nPath="@ + encoded(encode_utf8(whole), 0) + "\nDeletionDate="@ + date + "\n"@
}

fn is_absolute(path: &str) -> (r: bool)
    ensures
        r == paths::absolute(path@),
{
    proof {
        reveal_strlit("/");
        assert(text::starts_with(path@, "/"@) == paths::absolute(path@)) by {
            if paths::absolute(path@) {
                assert(path@.subrange(0, 1) =~= "/"@);
            } else if path@.len() > 0 && text::starts_with(path@, "/"@) {
                assert(path@.subrange(0, 1)[0] == path@[0]);
            }
        }
    }
    text::has_prefix(path, "/")
}

fn write_info(path: &str, cwd: &str, date: &str) -> (r: String)
    ensures
        r@ == info_text(path@, cwd@, date@),
{
    let whole = if is_absolute(path) {
        path.to_owned()
    } else {
        paths::join(cwd, path)
    };
    let mut out = concat2("[Trash Info]\nPath=", percent_encode(whole.as_str()).as_str());
    out.append("\nDeletionDate=");
    out.append(date);
    out.append("\n");
    out
}

/// Whether a text is a date and a time to the second. A year before the
/// first has a sign, and may have one digit less.
pub open spec fn date_and_time(s: Seq<char>) -> bool {
    ||| shaped(s, "####-##-##T##:##:##"@)
    ||| shaped(s, "-###-##-##T##:##:##"@)
    ||| shaped(s, "-####-##-##T##:##:##"@)
}

/// `jiff::Zoned::now` and `jiff::Zoned::strftime`: the local time, to the
/// second. The moment is whatever the clock says; claimed is how it is
/// written.
#[verifier::external_body]
fn deletion_date() -> (r: String)
    ensures
        date_and_time(r@),
{
    jiff::Zoned::now().strftime("%Y-%m-%dT%H:%M:%S").to_string()
}

// ------------------------------------------------------------------------- the move

/// What came of claiming a name that nobody else has.
#[derive(Debug)]
pub enum Claim {
    Mine,
    Taken,
    Failed(String),
}

/// One use of the hands, and what came of it.
pub enum TrashTouch {
    Look { start: Seq<char>, path: Seq<char>, answer: Result<Sight, String> },
    MakeDir { dir: Seq<char>, answer: Result<(), String> },
    DeviceOf { path: Seq<char>, answer: Result<u64, String> },
    DeviceOfDir { dir: Seq<char>, answer: Result<u64, String> },
    CurrentDir { answer: Result<String, String> },
    Claim { path: Seq<char>, answer: Claim },
    Write { path: Seq<char>, contents: Seq<char>, answer: Result<(), String> },
    Rename { from: Seq<char>, to: Seq<char>, answer: Result<(), String> },
    RemoveFile { path: Seq<char> },
}

/// Touches the machine for a move into the trash, and remembers how. Nothing
/// is promised of what comes of it.
pub trait TrashHands {
    /// Every use so far, oldest first.
    ///
    /// The log is for proofs and no part of the running program. A type that
    /// Verus does not see takes over this default and keeps nothing.
    closed spec fn trash_touches(&self) -> Seq<TrashTouch> {
        Seq::empty()
    }

    /// The mounts and the disk as they are right now.
    fn look(&mut self, start: &str, path: &str) -> (r: Result<Sight, String>)
        ensures
            final(self).trash_touches() == old(self).trash_touches().push(
                (TrashTouch::Look { start: start@, path: path@, answer: r }),
            ),
    ;

    fn make_dir(&mut self, dir: &str) -> (r: Result<(), String>)
        ensures
            final(self).trash_touches() == old(self).trash_touches().push(
                (TrashTouch::MakeDir { dir: dir@, answer: r }),
            ),
    ;

    /// The filesystem of a path, a link at its end not followed.
    fn device_of(&mut self, path: &str) -> (r: Result<u64, String>)
        ensures
            final(self).trash_touches() == old(self).trash_touches().push(
                (TrashTouch::DeviceOf { path: path@, answer: r }),
            ),
    ;

    /// The filesystem of a directory, links followed.
    fn device_of_dir(&mut self, dir: &str) -> (r: Result<u64, String>)
        ensures
            final(self).trash_touches() == old(self).trash_touches().push(
                (TrashTouch::DeviceOfDir { dir: dir@, answer: r }),
            ),
    ;

    fn current_dir(&mut self) -> (r: Result<String, String>)
        ensures
            final(self).trash_touches() == old(self).trash_touches().push(
                (TrashTouch::CurrentDir { answer: r }),
            ),
    ;

    /// Makes a file that must not be there yet.
    fn claim(&mut self, path: &str) -> (r: Claim)
        ensures
            final(self).trash_touches() == old(self).trash_touches().push(
                (TrashTouch::Claim { path: path@, answer: r }),
            ),
    ;

    fn write(&mut self, path: &str, contents: &str) -> (r: Result<(), String>)
        ensures
            final(self).trash_touches() == old(self).trash_touches().push(
                (TrashTouch::Write { path: path@, contents: contents@, answer: r }),
            ),
    ;

    fn rename(&mut self, from: &str, to: &str) -> (r: Result<(), String>)
        ensures
            final(self).trash_touches() == old(self).trash_touches().push(
                (TrashTouch::Rename { from: from@, to: to@, answer: r }),
            ),
    ;

    fn remove_file(&mut self, path: &str)
        ensures
            final(self).trash_touches() == old(self).trash_touches().push(
                (TrashTouch::RemoveFile { path: path@ }),
            ),
    ;
}

/// What was heard on the way. What was not asked for is of no account.
pub struct Heard {
    pub looked: Result<Sight, String>,
    pub files: Result<(), String>,
    pub info: Result<(), String>,
    pub path_dev: Result<u64, String>,
    pub trash_dev: Result<u64, String>,
    pub date: Seq<char>,
    pub cwd: Result<String, String>,
    /// How many names were taken before the last that was tried.
    pub taken: nat,
    pub claimed: Claim,
    pub written: Result<(), String>,
    pub moved: Result<(), String>,
    /// When what goes on record was put there.
    pub ts: Seq<char>,
}

/// Names are tried until one is not taken, or there are no more numbers.
pub open spec fn tried_enough(h: Heard) -> bool {
    &&& h.taken < u64::MAX
    &&& h.claimed is Taken ==> h.taken == u64::MAX - 1
}

pub open spec fn files_dir(home: Seq<char>) -> Seq<char> {
    paths::joined(home, ".local/share/Trash/files"@)
}

pub open spec fn info_dir(home: Seq<char>) -> Seq<char> {
    paths::joined(home, ".local/share/Trash/info"@)
}

/// The `n`th file to try for what is written beside a path.
pub open spec fn info_path(home: Seq<char>, file_name: Seq<char>, n: nat) -> Seq<char> {
    paths::joined(info_dir(home), nth_name(file_name, n) + ".trashinfo"@)
}

/// Where a path goes under its `n`th name.
pub open spec fn target(home: Seq<char>, file_name: Seq<char>, n: nat) -> Seq<char> {
    paths::joined(files_dir(home), nth_name(file_name, n))
}

/// The tries for the first `n` names, all of them taken.
pub open spec fn taken_claims(home: Seq<char>, file_name: Seq<char>, n: nat) -> Seq<TrashTouch> {
    Seq::new(
        n,
        |k: int|
            TrashTouch::Claim {
                path: info_path(home, file_name, k as nat),
                answer: Claim::Taken,
            },
    )
}

/// How far a move into the trash came, and why no further.
pub enum Progress {
    Blind(Seq<char>),
    Refused(Seq<char>),
    NoFilesDir(Seq<char>),
    NoInfoDir(Seq<char>),
    NoDevice(Seq<char>),
    NoTrashDevice(Seq<char>),
    /// The trash is on another filesystem than the path.
    Across,
    Nameless,
    NoCurrentDir(Seq<char>),
    Unclaimed(Seq<char>),
    /// The name was claimed, and what is beside it could not be written.
    Unwritten(Seq<char>),
    /// The path could not be moved.
    Unmoved(Seq<char>),
    Moved,
}

/// How far a move comes by what is heard.
pub open spec fn progress(ctx: &Ctx, start: Seq<char>, path: Seq<char>, h: Heard) -> Progress {
    if h.looked is Err {
        Progress::Blind(h.looked->Err_0@)
    } else if barred(ctx, start, path, h.looked->Ok_0) is Some {
        Progress::Refused(barred(ctx, start, path, h.looked->Ok_0)->0)
    } else if h.files is Err {
        Progress::NoFilesDir(h.files->Err_0@)
    } else if h.info is Err {
        Progress::NoInfoDir(h.info->Err_0@)
    } else if h.path_dev is Err {
        Progress::NoDevice(h.path_dev->Err_0@)
    } else if h.trash_dev is Err {
        Progress::NoTrashDevice(h.trash_dev->Err_0@)
    } else if h.path_dev->Ok_0 != h.trash_dev->Ok_0 {
        Progress::Across
    } else if paths::file_name(path) is None {
        Progress::Nameless
    } else if !paths::absolute(path) && h.cwd is Err {
        Progress::NoCurrentDir(h.cwd->Err_0@)
    } else if h.claimed !is Mine {
        Progress::Unclaimed(unclaimed(h.claimed))
    } else if h.written is Err {
        Progress::Unwritten(h.written->Err_0@)
    } else if h.moved is Err {
        Progress::Unmoved(h.moved->Err_0@)
    } else {
        Progress::Moved
    }
}

/// Why a path is not trashed by what is seen, judged by the root and the home
/// directory of the context.
pub open spec fn barred(ctx: &Ctx, start: Seq<char>, path: Seq<char>, sight: Sight) -> Option<
    Seq<char>,
> {
    refused(start, path, &env_seen(ctx, sight), &sight.host)
}

/// Why a name was not claimed.
pub open spec fn unclaimed(claim: Claim) -> Seq<char> {
    match claim {
        Claim::Failed(e) => e@,
        _ => NO_MORE_NAMES@,
    }
}

/// What is done by what is heard: each step only after the one before it came
/// out well. What is written beside the path is removed again where the move
/// fails.
pub open spec fn touches_of(ctx: &Ctx, start: Seq<char>, path: Seq<char>, h: Heard) -> Seq<
    TrashTouch,
> {
    let home = ctx.home@;
    let name = paths::file_name(path)->0;
    let cwd = if paths::absolute(path) {
        Seq::empty()
    } else {
        h.cwd->Ok_0@
    };
    let beside = info_path(home, name, h.taken);
    let to = target(home, name, h.taken);
    let contents = info_text(path, cwd, h.date);
    let looked = seq![TrashTouch::Look { start, path, answer: h.looked }];
    let files = looked.push(TrashTouch::MakeDir { dir: files_dir(home), answer: h.files });
    let info = files.push(TrashTouch::MakeDir { dir: info_dir(home), answer: h.info });
    let source = info.push(TrashTouch::DeviceOf { path, answer: h.path_dev });
    let devices = source.push(
        TrashTouch::DeviceOfDir { dir: files_dir(home), answer: h.trash_dev },
    );
    let placed = if paths::absolute(path) {
        devices
    } else {
        devices.push(TrashTouch::CurrentDir { answer: h.cwd })
    };
    let claimed = placed + taken_claims(home, name, h.taken).push(
        TrashTouch::Claim { path: beside, answer: h.claimed },
    );
    let written = claimed.push(
        TrashTouch::Write { path: beside, contents, answer: h.written },
    );
    let moved = written.push(TrashTouch::Rename { from: path, to, answer: h.moved });
    match progress(ctx, start, path, h) {
        Progress::Blind(_) => looked,
        Progress::Refused(_) => looked,
        Progress::NoFilesDir(_) => files,
        Progress::NoInfoDir(_) => info,
        Progress::NoDevice(_) => source,
        Progress::NoTrashDevice(_) => devices,
        Progress::Across => devices,
        Progress::Nameless => devices,
        Progress::NoCurrentDir(_) => placed,
        Progress::Unclaimed(_) => claimed,
        Progress::Unwritten(_) => written.push(TrashTouch::RemoveFile { path: beside }),
        Progress::Unmoved(_) => moved.push(TrashTouch::RemoveFile { path: beside }),
        Progress::Moved => moved,
    }
}

/// What goes on record, if anything does: a refusal, and a move.
pub open spec fn recorded(
    ctx: &Ctx,
    start: Seq<char>,
    path: Seq<char>,
    run_id: Seq<char>,
    h: Heard,
) -> Option<RecordModel> {
    match progress(ctx, start, path, h) {
        Progress::Refused(why) => Some(trash_record(h.ts, path, run_id, 0, why)),
        Progress::Across => Some(trash_record(h.ts, path, run_id, 0, ACROSS_OUTCOME@)),
        Progress::Moved => Some(
            trash_record(h.ts, path, run_id, h.looked->Ok_0.host.size_of(path), "ok"@),
        ),
        _ => None,
    }
}

/// Whether what is written beside a path says when.
pub open spec fn dated(ctx: &Ctx, start: Seq<char>, path: Seq<char>, h: Heard) -> bool {
    match progress(ctx, start, path, h) {
        Progress::Unwritten(_) => date_and_time(h.date),
        Progress::Unmoved(_) => date_and_time(h.date),
        Progress::Moved => date_and_time(h.date),
        _ => true,
    }
}

/// Whether what is written beside a path says when, and so does what goes on
/// record.
pub open spec fn on_time(
    ctx: &Ctx,
    start: Seq<char>,
    path: Seq<char>,
    run_id: Seq<char>,
    h: Heard,
) -> bool {
    &&& dated(ctx, start, path, h)
    &&& recorded(ctx, start, path, run_id, h) is Some ==> stamp(h.ts)
}

/// What a move into the trash comes to.
pub open spec fn outcome(ctx: &Ctx, start: Seq<char>, path: Seq<char>, h: Heard) -> Result<
    (Seq<char>, u64),
    Seq<char>,
> {
    let files = files_dir(ctx.home@);
    let name = paths::file_name(path)->0;
    let beside = info_path(ctx.home@, name, h.taken);
    let to = target(ctx.home@, name, h.taken);
    match progress(ctx, start, path, h) {
        Progress::Blind(e) => Err(e),
        Progress::Refused(why) => Err(why),
        Progress::NoFilesDir(e) => Err("failed to create "@ + files + ": "@ + e),
        Progress::NoInfoDir(e) => Err("failed to create "@ + info_dir(ctx.home@) + ": "@ + e),
        Progress::NoDevice(e) => Err("failed to stat "@ + path + ": "@ + e),
        Progress::NoTrashDevice(e) => Err("failed to stat "@ + files + ": "@ + e),
        Progress::Across => Err(ACROSS@),
        Progress::Nameless => Err("path has no file name: "@ + path),
        Progress::NoCurrentDir(e) => Err("failed to get current directory: "@ + e),
        Progress::Unclaimed(e) => Err("failed to create "@ + beside + ": "@ + e),
        Progress::Unwritten(e) => Err("failed to write "@ + beside + ": "@ + e),
        Progress::Unmoved(e) => Err("failed to move "@ + path + " to "@ + to + ": "@ + e),
        Progress::Moved => Ok((to, h.looked->Ok_0.host.size_of(path))),
    }
}

/// Whether a path was put in the trash so. `touches` is what was done and
/// `entries` are the records before and after it; `warning` is why a record
/// could not be written.
pub open spec fn trashed(
    ctx: &Ctx,
    start: Seq<char>,
    path: Seq<char>,
    run_id: Seq<char>,
    touches: Seq<TrashTouch>,
    entries: (Seq<Entry>, Seq<Entry>),
    r: (Result<(Seq<char>, u64), Seq<char>>, Option<Seq<char>>),
) -> bool {
    exists|h: Heard|
        {
            &&& tried_enough(h)
            &&& on_time(ctx, start, path, run_id, h)
            &&& touches == #[trigger] touches_of(ctx, start, path, h)
            &&& r.0 == outcome(ctx, start, path, h)
            &&& put_on_record(recorded(ctx, start, path, run_id, h), entries, r.1)
        }
}

/// Whether exactly this went on record.
pub open spec fn put_on_record(
    record: Option<RecordModel>,
    entries: (Seq<Entry>, Seq<Entry>),
    warning: Option<Seq<char>>,
) -> bool {
    match record {
        None => entries.1 == entries.0 && warning is None,
        Some(record) => entries.1 == entries.0.push(Entry { record, error: warning }),
    }
}

pub const NO_MORE_NAMES: &'static str = "File exists";

pub const ACROSS: &'static str =
    "can't trash across filesystems — delete permanently from the TUI instead";

pub const ACROSS_OUTCOME: &'static str = "refused: can't trash across filesystems";

#[derive(Debug, PartialEq)]
pub struct TrashOutcome {
    pub trashed_to: String,
    pub bytes: u64,
}

pub open spec fn outcome_view(r: Result<TrashOutcome, String>) -> Result<
    (Seq<char>, u64),
    Seq<char>,
> {
    match r {
        Ok(o) => Ok((o.trashed_to@, o.bytes)),
        Err(e) => Err(e@),
    }
}

/// Looks for a name that is free, and takes it.
fn claim_info_file<T: TrashHands>(hands: &mut T, home: &str, file_name: &str) -> (r: (u64, Claim))
    ensures
        r.0 < u64::MAX,
        r.1 is Taken ==> r.0 == u64::MAX - 1,
        final(hands).trash_touches() == old(hands).trash_touches() + taken_claims(
            home@,
            file_name@,
            r.0 as nat,
        ).push(
            (TrashTouch::Claim {
                path: info_path(home@, file_name@, r.0 as nat),
                answer: r.1,
            }),
        ),
{
    let dir = paths::join(home, ".local/share/Trash/info");
    let mut n: u64 = 0;
    let ghost before = hands.trash_touches();
    assert(before + taken_claims(home@, file_name@, 0) =~= before);
    loop
        invariant
            dir@ == info_dir(home@),
            before == old(hands).trash_touches(),
            hands.trash_touches() == before + taken_claims(home@, file_name@, n as nat),
            n < u64::MAX,
        decreases u64::MAX - n,
    {
        let name = candidate_name(file_name, n);
        let info = paths::join(dir.as_str(), concat2(name.as_str(), ".trashinfo").as_str());
        let answer = hands.claim(info.as_str());
        assert(hands.trash_touches() =~= before + taken_claims(home@, file_name@, n as nat).push(
            TrashTouch::Claim { path: info_path(home@, file_name@, n as nat), answer },
        ));
        let again = match &answer {
            Claim::Taken => n < u64::MAX - 1,
            _ => false,
        };
        if !again {
            return (n, answer);
        }
        assert(hands.trash_touches() =~= before + taken_claims(home@, file_name@, n as nat + 1));
        n += 1;
    }
}

/// Moves `path` into the trash below the home directory, after the same
/// checks as a deletion. `start` is the directory that the session was
/// started on, the only place inside which anything is trashed. A record
/// that cannot be written stops nothing; the second part of the answer says
/// why it could not.
pub fn trash_path<T: TrashHands, L: AuditLog>(
    hands: &mut T,
    ctx: &Ctx,
    start: &str,
    path: &str,
    run_id: &str,
    log: &mut L,
) -> (r: (Result<TrashOutcome, String>, Option<String>))
    ensures
        goes_on((old(hands).trash_touches(), final(hands).trash_touches())),
        final(log).readings() == old(log).readings(),
        trashed(
            ctx,
            start@,
            path@,
            run_id@,
            since((old(hands).trash_touches(), final(hands).trash_touches())),
            (old(log).entries(), final(log).entries()),
            (outcome_view(r.0), text::opt_text(r.1)),
        ),
{
    let ghost base = hands.trash_touches();
    let (r, Ghost(h)) = try_to_trash(hands, ctx, start, path);
    let warning = match &r {
        Tried::Refused { why } => put_away(log, record(path, run_id, 0, why.as_str())),
        Tried::Across => put_away(log, record(path, run_id, 0, ACROSS_OUTCOME)),
        Tried::Moved { to: _, bytes } => put_away(log, record(path, run_id, *bytes, "ok")),
        Tried::Failed { why: _ } => None,
    };
    assert(hands.trash_touches().take(base.len() as int) =~= base);
    assert(hands.trash_touches().skip(base.len() as int) =~= touches_of(ctx, start@, path@, h));
    proof {
        let all = Heard { ts: log.entries().last().record.ts, ..h };
        assert(on_time(ctx, start@, path@, run_id@, all));
        assert(touches_of(ctx, start@, path@, all) == touches_of(ctx, start@, path@, h));
    }
    let result = match r {
        Tried::Refused { why } => Err(why),
        Tried::Across => Err(ACROSS.to_owned()),
        Tried::Failed { why } => Err(why),
        Tried::Moved { to, bytes } => Ok(TrashOutcome { trashed_to: to, bytes }),
    };
    (result, warning)
}

/// What came of an attempt.
enum Tried {
    Refused { why: String },
    Across,
    Failed { why: String },
    Moved { to: String, bytes: u64 },
}

/// Whether an attempt came to this by what was heard.
spec fn tried(r: Tried, ctx: &Ctx, start: Seq<char>, path: Seq<char>, h: Heard) -> bool {
    match r {
        Tried::Refused { why } => {
            &&& progress(ctx, start, path, h) is Refused
            &&& outcome(ctx, start, path, h) == Result::<(Seq<char>, u64), Seq<char>>::Err(why@)
        },
        Tried::Across => progress(ctx, start, path, h) is Across,
        Tried::Failed { why } => {
            &&& progress(ctx, start, path, h) !is Refused
            &&& progress(ctx, start, path, h) !is Across
            &&& outcome(ctx, start, path, h) == Result::<(Seq<char>, u64), Seq<char>>::Err(why@)
        },
        Tried::Moved { to, bytes } => outcome(ctx, start, path, h) == Result::<
            (Seq<char>, u64),
            Seq<char>,
        >::Ok((to@, bytes)),
    }
}

fn try_to_trash<T: TrashHands>(hands: &mut T, ctx: &Ctx, start: &str, path: &str) -> (r: (
    Tried,
    Ghost<Heard>,
))
    ensures
        tried_enough(r.1@),
        dated(ctx, start@, path@, r.1@),
        final(hands).trash_touches() == old(hands).trash_touches() + touches_of(
            ctx,
            start@,
            path@,
            r.1@,
        ),
        tried(r.0, ctx, start@, path@, r.1@),
{
    let ghost base = hands.trash_touches();
    let ghost mut h = Heard { taken: 0, claimed: Claim::Mine, ..arbitrary() };
    let looked = hands.look(start, path);
    proof {
        h = Heard { looked, ..h };
    }
    let sight = match looked {
        Ok(sight) => sight,
        Err(why) => {
            assert(hands.trash_touches() =~= base + touches_of(ctx, start@, path@, h));
            return (Tried::Failed { why }, Ghost(h));
        },
    };
    let ghost seen = sight;
    let Sight { mount_points, euid, host } = sight;
    let env = SafetyEnv {
        root: ctx.root.clone(),
        home: ctx.home.clone(),
        mount_points,
        euid,
    };
    assert(env == env_seen(ctx, seen));
    if let Some(why) = refusal(start, path, &env, &host) {
        assert(hands.trash_touches() =~= base + touches_of(ctx, start@, path@, h));
        return (Tried::Refused { why }, Ghost(h));
    }
    let (files, info) = trash_dirs(ctx);
    let made = hands.make_dir(files.as_str());
    proof {
        h = Heard { files: made, ..h };
    }
    if let Err(e) = made {
        assert(hands.trash_touches() =~= base + touches_of(ctx, start@, path@, h));
        let why = concat4("failed to create ", files.as_str(), ": ", e.as_str());
        return (Tried::Failed { why }, Ghost(h));
    }
    let made = hands.make_dir(info.as_str());
    proof {
        h = Heard { info: made, ..h };
    }
    if let Err(e) = made {
        assert(hands.trash_touches() =~= base + touches_of(ctx, start@, path@, h));
        let why = concat4("failed to create ", info.as_str(), ": ", e.as_str());
        return (Tried::Failed { why }, Ghost(h));
    }
    let device = hands.device_of(path);
    proof {
        h = Heard { path_dev: device, ..h };
    }
    let path_dev: u64 = match device {
        Ok(dev) => dev,
        Err(e) => {
            assert(hands.trash_touches() =~= base + touches_of(ctx, start@, path@, h));
            let why = concat4("failed to stat ", path, ": ", e.as_str());
            return (Tried::Failed { why }, Ghost(h));
        },
    };
    let device = hands.device_of_dir(files.as_str());
    proof {
        h = Heard { trash_dev: device, ..h };
    }
    let trash_dev: u64 = match device {
        Ok(dev) => dev,
        Err(e) => {
            assert(hands.trash_touches() =~= base + touches_of(ctx, start@, path@, h));
            let why = concat4("failed to stat ", files.as_str(), ": ", e.as_str());
            return (Tried::Failed { why }, Ghost(h));
        },
    };
    if !same_device(path_dev, trash_dev) {
        assert(hands.trash_touches() =~= base + touches_of(ctx, start@, path@, h));
        return (Tried::Across, Ghost(h));
    }
    let bytes: u64 = host.size(path);
    let file_name = match paths::file_name_of(path) {
        Some(name) => name,
        None => {
            assert(hands.trash_touches() =~= base + touches_of(ctx, start@, path@, h));
            return (Tried::Failed { why: concat2("path has no file name: ", path) }, Ghost(h));
        },
    };
    let date = deletion_date();
    proof {
        h = Heard { date: date@, ..h };
    }
    let cwd = if is_absolute(path) {
        String::new()
    } else {
        let dir = hands.current_dir();
        proof {
            h = Heard { cwd: dir, ..h };
        }
        match dir {
            Ok(dir) => dir,
            Err(e) => {
                assert(hands.trash_touches() =~= base + touches_of(ctx, start@, path@, h));
                let why = concat2("failed to get current directory: ", e.as_str());
                return (Tried::Failed { why }, Ghost(h));
            },
        }
    };
    let contents = write_info(path, cwd.as_str(), date.as_str());
    let (n, claimed) = claim_info_file(hands, ctx.home.as_str(), file_name.as_str());
    proof {
        h = Heard { taken: n as nat, claimed, ..h };
    }
    let name = candidate_name(file_name.as_str(), n);
    let at = paths::join(info.as_str(), concat2(name.as_str(), ".trashinfo").as_str());
    match claimed {
        Claim::Mine => {},
        Claim::Failed(e) => {
            assert(hands.trash_touches() =~= base + touches_of(ctx, start@, path@, h));
            let why = concat4("failed to create ", at.as_str(), ": ", e.as_str());
            return (Tried::Failed { why }, Ghost(h));
        },
        Claim::Taken => {
            assert(hands.trash_touches() =~= base + touches_of(ctx, start@, path@, h));
            let why = concat4("failed to create ", at.as_str(), ": ", NO_MORE_NAMES);
            return (Tried::Failed { why }, Ghost(h));
        },
    }
    let written = hands.write(at.as_str(), contents.as_str());
    proof {
        h = Heard { written, ..h };
    }
    if let Err(e) = written {
        hands.remove_file(at.as_str());
        assert(hands.trash_touches() =~= base + touches_of(ctx, start@, path@, h));
        let why = concat4("failed to write ", at.as_str(), ": ", e.as_str());
        return (Tried::Failed { why }, Ghost(h));
    }
    let to = paths::join(files.as_str(), name.as_str());
    let moved = hands.rename(path, to.as_str());
    proof {
        h = Heard { moved, ..h };
    }
    if let Err(e) = moved {
        hands.remove_file(at.as_str());
        assert(hands.trash_touches() =~= base + touches_of(ctx, start@, path@, h));
        let what = concat4("failed to move ", path, " to ", to.as_str());
        let why = concat3(what.as_str(), ": ", e.as_str());
        return (Tried::Failed { why }, Ghost(h));
    }
    assert(hands.trash_touches() =~= base + touches_of(ctx, start@, path@, h));
    (Tried::Moved { to, bytes }, Ghost(h))
}

/// Puts a record away, and says why if that fails.
fn put_away<L: AuditLog>(log: &mut L, record: Record) -> (r: Option<String>)
    ensures
        final(log).entries() == old(log).entries().push(
            (Entry { record: record@, error: text::opt_text(r) }),
        ),
        final(log).readings() == old(log).readings(),
{
    match log.append(&record) {
        Ok(_) => None,
        Err(e) => Some(e),
    }
}

/// A path is moved only if what was seen clears it, judged by the root and
/// the home directory of the context, and what is written beside it comes
/// first and goes by the same name.
pub proof fn law_a_move_is_cleared_and_described(
    ctx: &Ctx,
    start: Seq<char>,
    path: Seq<char>,
    h: Heard,
    i: int,
)
    requires
        0 <= i < touches_of(ctx, start, path, h).len(),
        touches_of(ctx, start, path, h)[i] is Rename,
    ensures
        touches_of(ctx, start, path, h)[0] == (TrashTouch::Look {
            start,
            path,
            answer: h.looked,
        }),
        h.looked is Ok,
        verdict(
            path,
            seq![start],
            Tier::User,
            &env_seen(ctx, h.looked->Ok_0),
            &h.looked->Ok_0.host,
        ) is None,
        touches_of(ctx, start, path, h)[i] == (TrashTouch::Rename {
            from: path,
            to: target(ctx.home@, paths::file_name(path)->0, h.taken),
            answer: h.moved,
        }),
        i > 0,
        touches_of(ctx, start, path, h)[i - 1] is Write,
        touches_of(ctx, start, path, h)[i - 1]->Write_path == info_path(
            ctx.home@,
            paths::file_name(path)->0,
            h.taken,
        ),
{
}

/// A path goes to the first name that is free: every name before it was tried
/// and taken, and it was claimed before anything was written.
pub proof fn law_a_move_takes_the_first_free_name(
    ctx: &Ctx,
    start: Seq<char>,
    path: Seq<char>,
    h: Heard,
    i: int,
    n: nat,
)
    requires
        0 <= i < touches_of(ctx, start, path, h).len(),
        touches_of(ctx, start, path, h)[i] is Rename,
        n <= h.taken,
    ensures
        touches_of(ctx, start, path, h)[i - 2 - h.taken + n] == (TrashTouch::Claim {
            path: info_path(ctx.home@, paths::file_name(path)->0, n),
            answer: if n < h.taken {
                Claim::Taken
            } else {
                Claim::Mine
            },
        }),
{
}

/// A move that fails leaves no file beside it: one that was written is
/// removed again, and it is the last thing done.
pub proof fn law_a_failed_move_cleans_up(
    ctx: &Ctx,
    start: Seq<char>,
    path: Seq<char>,
    h: Heard,
    i: int,
)
    requires
        outcome(ctx, start, path, h) is Err,
        0 <= i < touches_of(ctx, start, path, h).len(),
        touches_of(ctx, start, path, h)[i] is Write,
    ensures
        touches_of(ctx, start, path, h).last() == (TrashTouch::RemoveFile {
            path: touches_of(ctx, start, path, h)[i]->Write_path,
        }),
{
}

/// A path that may be deleted ends up in the trash, unless a step on the way
/// there fails.
pub proof fn law_what_is_cleared_is_trashed(
    ctx: &Ctx,
    start: Seq<char>,
    path: Seq<char>,
    run_id: Seq<char>,
    h: Heard,
)
    requires
        h.looked is Ok,
        verdict(
            path,
            seq![start],
            Tier::User,
            &env_seen(ctx, h.looked->Ok_0),
            &h.looked->Ok_0.host,
        ) is None,
        h.files is Ok,
        h.info is Ok,
        h.path_dev is Ok,
        h.trash_dev is Ok,
        h.path_dev->Ok_0 == h.trash_dev->Ok_0,
        paths::file_name(path) is Some,
        paths::absolute(path) || h.cwd is Ok,
        h.claimed is Mine,
        h.written is Ok,
        h.moved is Ok,
    ensures
        outcome(ctx, start, path, h) == Result::<(Seq<char>, u64), Seq<char>>::Ok(
            (
                target(ctx.home@, paths::file_name(path)->0, h.taken),
                h.looked->Ok_0.host.size_of(path),
            ),
        ),
        touches_of(ctx, start, path, h).last() == (TrashTouch::Rename {
            from: path,
            to: target(ctx.home@, paths::file_name(path)->0, h.taken),
            answer: h.moved,
        }),
        recorded(ctx, start, path, run_id, h) == Some(
            trash_record(h.ts, path, run_id, h.looked->Ok_0.host.size_of(path), "ok"@),
        ),
{
}

// ------------------------------------------------------------------------ laws


/// What is trashed lies under one name among the files, and its description
/// under the same name beside them.
pub proof fn law_the_description_bears_the_name(
    home: Seq<char>,
    file_name: Seq<char>,
    n: nat,
    name: Seq<char>,
)
    requires
        home.len() > 0,
        home.last() != '/',
        file_name.len() > 0,
        file_name[0] != '/',
        n == 0 && name == file_name || n > 0 && name == file_name + "."@ + text::decimal(n + 1),
    ensures
        target(home, file_name, n) == home + "/.local/share/Trash/files/"@ + name,
        info_path(home, file_name, n) == home + "/.local/share/Trash/info/"@ + name
            + ".trashinfo"@,
{
    reveal_strlit("/");
    reveal_strlit(".local/share/Trash/files");
    reveal_strlit(".local/share/Trash/info");
    reveal_strlit("/.local/share/Trash/files/");
    reveal_strlit("/.local/share/Trash/info/");
    let a = home + "/"@ + ".local/share/Trash/files"@;
    let b = home + "/"@ + ".local/share/Trash/info"@;
    assert(paths::joined(home, ".local/share/Trash/files"@) =~= a);
    assert(paths::joined(home, ".local/share/Trash/info"@) =~= b);
    assert(a.last() == 's');
    assert(b.last() == 'o');
    assert(name[0] == file_name[0]);
    let info = name + ".trashinfo"@;
    assert(info[0] == file_name[0]);
    assert(a + "/"@ + name =~= home + "/.local/share/Trash/files/"@ + name);
    assert(b + "/"@ + info =~= home + "/.local/share/Trash/info/"@ + name + ".trashinfo"@);
    assert(target(home, file_name, n) =~= a + "/"@ + name);
    assert(info_path(home, file_name, n) =~= b + "/"@ + info);
}

/// Letters, digits and what is plain in a path are written as they are, and
/// all else is escaped.
pub proof fn law_plain_bytes_are_written_as_they_are(b: u8)
    ensures
        literal(b) <==> {
            ||| 'a' as u32 <= b as u32 <= 'z' as u32
            ||| 'A' as u32 <= b as u32 <= 'Z' as u32
            ||| '0' as u32 <= b as u32 <= '9' as u32
            ||| b as u32 == '/' as u32
            ||| b as u32 == '-' as u32
            ||| b as u32 == '_' as u32
            ||| b as u32 == '.' as u32
            ||| b as u32 == '~' as u32
        },
{
}

} // verus!

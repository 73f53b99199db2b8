//! Which paths may be deleted at all.

use vstd::prelude::*;
use vstd::utf8::{encode_utf8, encode_utf8_decode_utf8, encode_utf8_valid_utf8};

use crate::host::Host;
use crate::paths;
use crate::text;
use crate::text::{concat2, read_text, text_in};

verus! {

broadcast use vstd::seq::group_seq_axioms;

#[derive(Debug, Clone, Copy, PartialEq, Eq, Structural)]
pub enum Tier {
    System,
    User,
}

#[derive(Debug, PartialEq)]
pub enum Refusal {
    Uninspectable(String),
    DenyListed,
    SymlinkEscape,
    OutsidePrefix,
    TooShallow,
    MountPoint,
    NotOwned,
}

/// A refusal as a mathematical value.
pub enum RefusalModel {
    Uninspectable(Seq<char>),
    DenyListed,
    SymlinkEscape,
    OutsidePrefix,
    TooShallow,
    MountPoint,
    NotOwned,
}

impl View for Refusal {
    type V = RefusalModel;

    open spec fn view(&self) -> RefusalModel {
        match self {
            Refusal::Uninspectable(path) => RefusalModel::Uninspectable(path@),
            Refusal::DenyListed => RefusalModel::DenyListed,
            Refusal::SymlinkEscape => RefusalModel::SymlinkEscape,
            Refusal::OutsidePrefix => RefusalModel::OutsidePrefix,
            Refusal::TooShallow => RefusalModel::TooShallow,
            Refusal::MountPoint => RefusalModel::MountPoint,
            Refusal::NotOwned => RefusalModel::NotOwned,
        }
    }
}

/// A refusal in words.
pub open spec fn refusal_text(r: RefusalModel) -> Seq<char> {
    match r {
        RefusalModel::Uninspectable(path) => "path does not exist or cannot be inspected: "@
            + path,
        RefusalModel::DenyListed => "protected path"@,
        RefusalModel::SymlinkEscape => "escapes allowed prefix via symlink"@,
        RefusalModel::OutsidePrefix => "outside this rule's allowed locations"@,
        RefusalModel::TooShallow => "path is too shallow to delete safely"@,
        RefusalModel::MountPoint => "path is a mount point"@,
        RefusalModel::NotOwned => "not owned by the current user"@,
    }
}

impl Refusal {
    pub fn message(&self) -> (r: String)
        ensures
            r@ == refusal_text(self@),
    {
        match self {
            Refusal::Uninspectable(path) => concat2(
                "path does not exist or cannot be inspected: ",
                path.as_str(),
            ),
            Refusal::DenyListed => "protected path".to_owned(),
            Refusal::SymlinkEscape => "escapes allowed prefix via symlink".to_owned(),
            Refusal::OutsidePrefix => "outside this rule's allowed locations".to_owned(),
            Refusal::TooShallow => "path is too shallow to delete safely".to_owned(),
            Refusal::MountPoint => "path is a mount point".to_owned(),
            Refusal::NotOwned => "not owned by the current user".to_owned(),
        }
    }
}

pub struct SafetyEnv {
    pub root: String,
    pub home: String,
    pub mount_points: Vec<String>,
    pub euid: u32,
}

/// The protected directories of the system, below the root.
pub open spec fn root_relative() -> Seq<Seq<char>> {
    seq!["boot"@, "efi"@, "etc"@, "usr"@, "bin"@, "sbin"@, "lib"@, "lib64"@, "lib32"@, "opt"@]
        + seq!["srv"@, "root"@, "home"@, "var/lib/pacman/local"@]
}

/// The protected directories of the user, below the home directory.
pub open spec fn home_relative() -> Seq<Seq<char>> {
    seq![".ssh"@, ".gnupg"@, ".password-store"@, ".mozilla"@, ".config/badger"@]
}

pub open spec fn joined_all(base: Seq<char>, rels: Seq<Seq<char>>) -> Seq<Seq<char>> {
    Seq::new(rels.len(), |i: int| paths::joined(base, rels[i]))
}

/// Root and home themselves and what is protected below them.
pub open spec fn denied_paths(root: Seq<char>, home: Seq<char>) -> Seq<Seq<char>> {
    seq![root] + joined_all(root, root_relative()) + seq![home] + joined_all(
        home,
        home_relative(),
    )
}

fn join_all(base: &str, rels: &Vec<String>) -> (r: Vec<String>)
    ensures
        text::texts(r@) == joined_all(base@, text::texts(rels@)),
{
    let mut out: Vec<String> = Vec::new();
    let mut i: usize = 0;
    while i < rels.len()
        invariant
            i <= rels.len(),
            out.len() == i,
            forall|k: int| 0 <= k < i ==> (#[trigger] out@[k])@ == paths::joined(base@, rels@[k]@),
        decreases rels.len() - i,
    {
        out.push(paths::join(base, rels[i].as_str()));
        i += 1;
    }
    assert(text::texts(out@) =~= joined_all(base@, text::texts(rels@)));
    out
}

fn root_relative_list() -> (r: Vec<String>)
    ensures
        text::texts(r@) == root_relative(),
{
    let mut out = text::list5("boot", "efi", "etc", "usr", "bin");
    let mut b = text::list5("sbin", "lib", "lib64", "lib32", "opt");
    let mut c = text::list4("srv", "root", "home", "var/lib/pacman/local");
    let ghost x = out@;
    let ghost y = b@;
    let ghost z = c@;
    out.append(&mut b);
    out.append(&mut c);
    assert(text::texts(out@) =~= text::texts(x) + text::texts(y) + text::texts(z));
    assert(text::texts(out@) =~= root_relative());
    out
}

impl SafetyEnv {
    pub fn deny_list(&self) -> (r: Vec<String>)
        ensures
            text::texts(r@) == denied_paths(self.root@, self.home@),
    {
        let below_root = root_relative_list();
        let below_home = text::list5(
            ".ssh",
            ".gnupg",
            ".password-store",
            ".mozilla",
            ".config/badger",
        );
        let mut out = text::list1(self.root.as_str());
        let mut b = join_all(self.root.as_str(), &below_root);
        let mut c = join_all(self.home.as_str(), &below_home);
        let ghost w = out@;
        let ghost x = b@;
        let ghost y = c@;
        out.append(&mut b);
        out.push(self.home.clone());
        out.append(&mut c);
        assert(text::texts(out@) =~= text::texts(w) + text::texts(x) + seq![self.home@]
            + text::texts(y));
        out
    }
}

// ------------------------------------------------------------------ the verdict

/// The directory that a path lies in, by its text.
pub open spec fn syntactic_parent(path: Seq<char>) -> Seq<char> {
    match paths::parent(path) {
        Some(parent) => parent,
        None => path,
    }
}

/// Where a path really is: links in its parent are followed, the last name
/// never is.
pub open spec fn effective(path: Seq<char>, real_parent: Seq<char>) -> Seq<char> {
    match paths::file_name(path) {
        Some(name) => paths::joined(real_parent, name),
        None => real_parent,
    }
}

/// Root, the directory of homes and home are boundaries: everything that is
/// ever deleted lies inside of them, so only they and what contains them are
/// out of bounds, not what they contain.
pub open spec fn boundary(d: Seq<char>, root: Seq<char>, home: Seq<char>) -> bool {
    paths::same_path(d, root) || paths::same_path(d, paths::joined(root, "home"@))
        || paths::same_path(d, home)
}

/// Whether `d` keeps `place` from being deleted: it is that place, contains
/// it (unless it is a boundary), or lies in it.
pub open spec fn forbids(d: Seq<char>, place: Seq<char>, root: Seq<char>, home: Seq<char>) -> bool {
    ||| paths::same_path(place, d)
    ||| !boundary(d, root, home) && paths::under(place, d)
    ||| paths::under(d, place)
}

pub open spec fn denied(place: Seq<char>, root: Seq<char>, home: Seq<char>) -> bool {
    exists|i: int|
        0 <= i < denied_paths(root, home).len() && forbids(
            #[trigger] denied_paths(root, home)[i],
            place,
            root,
            home,
        )
}

/// Whether `place` lies in one of the allowed prefixes that exist.
pub open spec fn inside(place: Seq<char>, allowed: Seq<Seq<char>>, host: &Host) -> bool {
    exists|i: int|
        0 <= i < allowed.len() && (match host.real_path(#[trigger] allowed[i]) {
            Some(prefix) => paths::under(place, prefix),
            None => false,
        })
}

pub open spec fn resolved_or(path: Seq<char>, host: &Host) -> Seq<char> {
    match host.real_path(path) {
        Some(place) => place,
        None => path,
    }
}

/// Fewer than two names below home, or fewer than three below the root.
pub open spec fn too_shallow(place: Seq<char>, home: Seq<char>, root: Seq<char>) -> bool {
    if paths::under(place, home) {
        paths::names(place).len() - paths::names(home).len() < 2
    } else if paths::under(place, root) {
        paths::names(place).len() - paths::names(root).len() < 3
    } else {
        true
    }
}

pub open spec fn mounted(place: Seq<char>, mounts: Seq<Seq<char>>) -> bool {
    exists|i: int| 0 <= i < mounts.len() && paths::same_path(#[trigger] mounts[i], place)
}

/// Why `path` may not be deleted, or `None` if it may. The checks are made in
/// this order, and the first that fails is the reason.
pub open spec fn verdict(
    path: Seq<char>,
    allowed: Seq<Seq<char>>,
    tier: Tier,
    env: &SafetyEnv,
    host: &Host,
) -> Option<RefusalModel> {
    let parent = syntactic_parent(path);
    match (host.found(path), host.real_path(parent)) {
        (Some(leaf), Some(real_parent)) => {
            let place = effective(path, real_parent);
            if denied(place, env.root@, env.home@) {
                Some(RefusalModel::DenyListed)
            } else if !inside(place, allowed, host) {
                Some(
                    if !paths::same_path(real_parent, parent) {
                        RefusalModel::SymlinkEscape
                    } else {
                        RefusalModel::OutsidePrefix
                    },
                )
            } else if too_shallow(
                place,
                resolved_or(env.home@, host),
                resolved_or(env.root@, host),
            ) {
                Some(RefusalModel::TooShallow)
            } else if mounted(place, text::texts(env.mount_points@)) {
                Some(RefusalModel::MountPoint)
            } else if tier == Tier::User && leaf.uid != env.euid {
                Some(RefusalModel::NotOwned)
            } else {
                None
            }
        },
        _ => Some(RefusalModel::Uninspectable(path)),
    }
}

fn is_boundary(d: &str, root: &str, home: &str) -> (r: bool)
    ensures
        r == boundary(d@, root@, home@),
{
    let homes = paths::join(root, "home");
    paths::is_same_path(d, root) || paths::is_same_path(d, homes.as_str()) || paths::is_same_path(
        d,
        home,
    )
}

fn is_denied(place: &str, env: &SafetyEnv) -> (r: bool)
    ensures
        r == denied(place@, env.root@, env.home@),
{
    let list = env.deny_list();
    let ghost all = text::texts(list@);
    let root = env.root.as_str();
    let home = env.home.as_str();
    let mut i: usize = 0;
    while i < list.len()
        invariant
            i <= list.len(),
            all == text::texts(list@),
            all == denied_paths(env.root@, env.home@),
            root@ == env.root@,
            home@ == env.home@,
            forall|k: int| 0 <= k < i ==> !forbids(#[trigger] all[k], place@, root@, home@),
        decreases list.len() - i,
    {
        assert(all[i as int] == list@[i as int]@);
        let d = list[i].as_str();
        if paths::is_same_path(place, d) || (!is_boundary(d, root, home) && paths::is_under(
            place,
            d,
        )) || paths::is_under(d, place) {
            assert(forbids(all[i as int], place@, root@, home@));
            return true;
        }
        i += 1;
    }
    false
}

fn is_inside(place: &str, allowed: &Vec<String>, host: &Host) -> (r: bool)
    ensures
        r == inside(place@, text::texts(allowed@), host),
{
    let ghost all = text::texts(allowed@);
    let mut i: usize = 0;
    while i < allowed.len()
        invariant
            i <= allowed.len(),
            all == text::texts(allowed@),
            forall|k: int|
                0 <= k < i ==> !(match host.real_path(#[trigger] all[k]) {
                    Some(prefix) => paths::under(place@, prefix),
                    None => false,
                }),
        decreases allowed.len() - i,
    {
        assert(all[i as int] == allowed@[i as int]@);
        if let Some(prefix) = host.resolve(allowed[i].as_str()) {
            if paths::is_under(place, prefix.as_str()) {
                return true;
            }
        }
        i += 1;
    }
    false
}

fn resolve_or(path: &str, host: &Host) -> (r: String)
    ensures
        r@ == resolved_or(path@, host),
{
    match host.resolve(path) {
        Some(place) => place,
        None => path.to_owned(),
    }
}

fn depth(path: &str) -> (r: usize)
    ensures
        r == paths::names(path@).len(),
{
    let parts = paths::names_of(path);
    assert(text::texts(parts.names@).len() == parts.names.len());
    parts.names.len()
}

fn is_too_shallow(place: &str, home: &str, root: &str) -> (r: bool)
    ensures
        r == too_shallow(place@, home@, root@),
{
    if paths::is_under(place, home) {
        depth(place) - depth(home) < 2
    } else if paths::is_under(place, root) {
        depth(place) - depth(root) < 3
    } else {
        true
    }
}

fn is_mounted(place: &str, mounts: &Vec<String>) -> (r: bool)
    ensures
        r == mounted(place@, text::texts(mounts@)),
{
    let ghost all = text::texts(mounts@);
    let mut i: usize = 0;
    while i < mounts.len()
        invariant
            i <= mounts.len(),
            all == text::texts(mounts@),
            forall|k: int| 0 <= k < i ==> !paths::same_path(#[trigger] all[k], place@),
        decreases mounts.len() - i,
    {
        assert(all[i as int] == mounts@[i as int]@);
        if paths::is_same_path(mounts[i].as_str(), place) {
            return true;
        }
        i += 1;
    }
    false
}

pub open spec fn refusal_of(r: Result<(), Refusal>) -> Option<RefusalModel> {
    match r {
        Ok(_) => None,
        Err(refusal) => Some(refusal@),
    }
}

/// Whether `path` may be deleted by a rule that is allowed `allowed`. The
/// path itself is never followed if it is a link; links in its parent are, so
/// that every check is made on where the path really is.
pub fn validate_deletable(
    path: &str,
    allowed: &Vec<String>,
    tier: Tier,
    env: &SafetyEnv,
    host: &Host,
) -> (r: Result<(), Refusal>)
    ensures
        refusal_of(r) == verdict(path@, text::texts(allowed@), tier, env, host),
{
    let leaf = match host.find(path) {
        Some(leaf) => leaf,
        None => {
            return Err(Refusal::Uninspectable(path.to_owned()));
        },
    };
    let parent = match paths::parent_of(path) {
        Some(parent) => parent,
        None => path.to_owned(),
    };
    let real_parent = match host.resolve(parent.as_str()) {
        Some(place) => place,
        None => {
            return Err(Refusal::Uninspectable(path.to_owned()));
        },
    };
    let place = match paths::file_name_of(path) {
        Some(name) => paths::join(real_parent.as_str(), name.as_str()),
        None => real_parent.clone(),
    };
    if is_denied(place.as_str(), env) {
        return Err(Refusal::DenyListed);
    }
    if !is_inside(place.as_str(), allowed, host) {
        if !paths::is_same_path(real_parent.as_str(), parent.as_str()) {
            return Err(Refusal::SymlinkEscape);
        }
        return Err(Refusal::OutsidePrefix);
    }
    let home = resolve_or(env.home.as_str(), host);
    let root = resolve_or(env.root.as_str(), host);
    if is_too_shallow(place.as_str(), home.as_str(), root.as_str()) {
        return Err(Refusal::TooShallow);
    }
    if is_mounted(place.as_str(), &env.mount_points) {
        return Err(Refusal::MountPoint);
    }
    if tier == Tier::User && leaf.uid != env.euid {
        return Err(Refusal::NotOwned);
    }
    Ok(())
}

/// Whatever a rule allows, nothing is deletable that is, contains, or lies in
/// a protected path; for the boundaries, that is or contains one.
pub proof fn law_protected_paths_are_never_deletable(
    path: Seq<char>,
    allowed: Seq<Seq<char>>,
    tier: Tier,
    env: &SafetyEnv,
    host: &Host,
    i: int,
)
    requires
        0 <= i < denied_paths(env.root@, env.home@).len(),
        host.real_path(syntactic_parent(path)) is Some,
        forbids(
            denied_paths(env.root@, env.home@)[i],
            effective(path, host.real_path(syntactic_parent(path))->Some_0),
            env.root@,
            env.home@,
        ),
    ensures
        verdict(path, allowed, tier, env, host) is Some,
{
}

/// What is deletable lies, links followed, in a prefix that the rule allows;
/// it is no mount point, lies deep enough, and belongs to the user if the
/// rule is the user's.
pub proof fn law_deletable_paths_are_inside(
    path: Seq<char>,
    allowed: Seq<Seq<char>>,
    tier: Tier,
    env: &SafetyEnv,
    host: &Host,
)
    requires
        verdict(path, allowed, tier, env, host) is None,
    ensures
        host.found(path) is Some,
        host.real_path(syntactic_parent(path)) is Some,
        ({
            let place = effective(path, host.real_path(syntactic_parent(path))->Some_0);
            &&& inside(place, allowed, host)
            &&& !denied(place, env.root@, env.home@)
            &&& !mounted(place, text::texts(env.mount_points@))
            &&& !too_shallow(
                place,
                resolved_or(env.home@, host),
                resolved_or(env.root@, host),
            )
        }),
        tier == Tier::User ==> host.found(path)->Some_0.uid == env.euid,
{
}

// ------------------------------------------------------------------- mountinfo

pub open spec fn octal_digit(b: u8) -> bool {
    48 <= b <= 55
}

/// The byte that three characters behind a backslash stand for: octal
/// digits, the first of which may be a plus sign instead.
pub open spec fn octal_byte(a: u8, b: u8, c: u8) -> Option<u8> {
    if (octal_digit(a) || a == 43) && octal_digit(b) && octal_digit(c) {
        let high = if a == 43 {
            0int
        } else {
            a - 48
        };
        let n = high * 64 + (b - 48) * 8 + (c - 48);
        if n <= 255 {
            Some(n as u8)
        } else {
            None
        }
    } else {
        None
    }
}

/// The escape at position `i`, if there is one.
pub open spec fn escape_at(s: Seq<u8>, i: int) -> Option<u8> {
    if s[i] == 92 && i + 3 < s.len() {
        octal_byte(s[i + 1], s[i + 2], s[i + 3])
    } else {
        None
    }
}

/// `s[i..]` with its escapes replaced by the bytes they stand for.
pub open spec fn unescaped(s: Seq<u8>, i: int) -> Seq<u8>
    decreases s.len() - i,
{
    if i < 0 || i >= s.len() {
        Seq::empty()
    } else {
        match escape_at(s, i) {
            Some(b) => seq![b] + unescaped(s, i + 4),
            None => seq![s[i]] + unescaped(s, i + 1),
        }
    }
}

fn read_octal(a: u8, b: u8, c: u8) -> (r: Option<u8>)
    ensures
        r == octal_byte(a, b, c),
{
    let ok = ((48 <= a && a <= 55) || a == 43) && (48 <= b && b <= 55) && (48 <= c && c <= 55);
    if !ok {
        return None;
    }
    let high: u32 = if a == 43 {
        0
    } else {
        a as u32 - 48
    };
    let n: u32 = high * 64 + (b as u32 - 48) * 8 + (c as u32 - 48);
    if n <= 255 {
        Some(n as u8)
    } else {
        None
    }
}

/// The text of a path in mountinfo, which writes space, tab, newline and
/// backslash as `\NNN` in octal.
pub open spec fn unescaped_text(s: Seq<char>) -> Seq<char> {
    text_in(unescaped(encode_utf8(s), 0))
}

/// Replaces the escapes in `bytes`.
pub fn unescape_bytes(bytes: &[u8]) -> (r: Vec<u8>)
    ensures
        r@ == unescaped(bytes@, 0),
{
    let mut out: Vec<u8> = Vec::new();
    let mut i: usize = 0;
    while i < bytes.len()
        invariant
            i <= bytes.len(),
            out@ + unescaped(bytes@, i as int) == unescaped(bytes@, 0),
        decreases bytes.len() - i,
    {
        let ghost had = out@;
        let escape = if bytes[i] == 92 && bytes.len() - i > 3 {
            read_octal(bytes[i + 1], bytes[i + 2], bytes[i + 3])
        } else {
            None
        };
        match escape {
            Some(b) => {
                out.push(b);
                assert(out@ + unescaped(bytes@, i + 4) =~= had + unescaped(bytes@, i as int));
                i += 4;
            },
            None => {
                out.push(bytes[i]);
                assert(out@ + unescaped(bytes@, i + 1) =~= had + unescaped(bytes@, i as int));
                i += 1;
            },
        }
    }
    assert(out@ =~= unescaped(bytes@, 0));
    out
}

pub fn unescape_octal(s: &str) -> (r: String)
    ensures
        r@ == unescaped_text(s@),
{
    let bytes = unescape_bytes(s.as_bytes());
    read_text(&bytes)
}

/// The mount points in the first `n` lines: the fifth word of each.
pub open spec fn mounts_upto(lines: Seq<Seq<char>>, n: int) -> Seq<Seq<char>>
    decreases n,
{
    if n <= 0 {
        Seq::empty()
    } else {
        let w = text::words(lines[n - 1]);
        if w.len() > 4 {
            mounts_upto(lines, n - 1).push(unescaped_text(w[4]))
        } else {
            mounts_upto(lines, n - 1)
        }
    }
}

pub open spec fn mounts_in(mountinfo: Seq<char>) -> Seq<Seq<char>> {
    mounts_upto(text::lines(mountinfo), text::lines(mountinfo).len() as int)
}

pub fn parse_mountinfo(mountinfo: &str) -> (r: Vec<String>)
    ensures
        text::texts(r@) == mounts_in(mountinfo@),
{
    let list = text::split_lines(mountinfo);
    let ghost all = text::texts(list@);
    let mut out: Vec<String> = Vec::new();
    let mut i: usize = 0;
    assert(text::texts(out@) =~= Seq::empty());
    while i < list.len()
        invariant
            i <= list.len(),
            all == text::texts(list@),
            text::texts(out@) == mounts_upto(all, i as int),
        decreases list.len() - i,
    {
        assert(all[i as int] == list@[i as int]@);
        let words = text::split_words(list[i].as_str());
        let ghost w = text::texts(words@);
        assert(w.len() == words.len());
        let ghost had = out@;
        if words.len() > 4 {
            assert(w[4] == words@[4]@);
            out.push(unescape_octal(words[4].as_str()));
            assert(text::texts(out@) =~= text::texts(had).push(unescaped_text(w[4])));
        }
        i += 1;
    }
    out
}

/// A path without a backslash is written as it is.
pub proof fn law_plain_bytes_are_kept(s: Seq<u8>, i: int)
    requires
        0 <= i <= s.len(),
        forall|k: int| i <= k < s.len() ==> s[k] != 92,
    ensures
        unescaped(s, i) == s.skip(i),
    decreases s.len() - i,
{
    if i < s.len() {
        law_plain_bytes_are_kept(s, i + 1);
        assert(unescaped(s, i) =~= s.skip(i));
    } else {
        assert(s.skip(i) =~= Seq::empty());
    }
}

/// A path without a backslash is read as it is written.
pub proof fn law_plain_text_is_kept(s: Seq<char>)
    requires
        forall|k: int| 0 <= k < encode_utf8(s).len() ==> encode_utf8(s)[k] != 92,
    ensures
        unescaped_text(s) == s,
{
    let bytes = encode_utf8(s);
    law_plain_bytes_are_kept(bytes, 0);
    assert(bytes.skip(0) =~= bytes);
    encode_utf8_valid_utf8(s);
    encode_utf8_decode_utf8(s);
}

// ------------------------------------------------------------------------ laws


/// What belongs to the system below the root.
pub open spec fn of_the_system() -> Seq<Seq<char>> {
    seq![
        "boot"@,
        "efi"@,
        "etc"@,
        "usr"@,
        "bin"@,
        "sbin"@,
        "lib"@,
        "lib64"@,
        "lib32"@,
        "opt"@,
        "srv"@,
        "root"@,
        "var/lib/pacman/local"@,
    ]
}

/// What is the user's own below the home directory.
pub open spec fn of_the_user() -> Seq<Seq<char>> {
    seq![".ssh"@, ".gnupg"@, ".password-store"@, ".mozilla"@, ".config/badger"@]
}

/// Whether one of two places holds the other.
pub open spec fn touches(a: Seq<char>, b: Seq<char>) -> bool {
    paths::under(a, b) || paths::under(b, a)
}

/// Whether `place` keeps clear of everything that must stay: it neither lies
/// in nor holds anything of the system's or the user's own, and holds neither
/// the root, nor the home directories, nor the home directory.
pub open spec fn clear_of_all(place: Seq<char>, root: Seq<char>, home: Seq<char>) -> bool {
    &&& forall|i: int|
        0 <= i < of_the_system().len() ==> !touches(
            place,
            paths::below(root, #[trigger] of_the_system()[i]),
        )
    &&& forall|i: int|
        0 <= i < of_the_user().len() ==> !touches(
            place,
            paths::below(home, #[trigger] of_the_user()[i]),
        )
    &&& !paths::under(root, place)
    &&& !paths::under(home, place)
    &&& !paths::under(paths::below(root, "home"@), place)
}

proof fn lemma_root_relative(i: int)
    requires
        0 <= i < root_relative().len(),
    ensures
        root_relative()[i].len() > 0,
        root_relative()[i][0] != '/',
        i == 12 ==> root_relative()[i] == "home"@,
        i < 12 ==> root_relative()[i] == of_the_system()[i],
        i == 13 ==> root_relative()[i] == of_the_system()[12],
{
    reveal_strlit("boot");
    reveal_strlit("efi");
    reveal_strlit("etc");
    reveal_strlit("usr");
    reveal_strlit("bin");
    reveal_strlit("sbin");
    reveal_strlit("lib");
    reveal_strlit("lib64");
    reveal_strlit("lib32");
    reveal_strlit("opt");
    reveal_strlit("srv");
    reveal_strlit("root");
    reveal_strlit("home");
    reveal_strlit("var/lib/pacman/local");
    let r = root_relative();
    let s = of_the_system();
    assert(r[0] == s[0] && r[1] == s[1] && r[2] == s[2] && r[3] == s[3] && r[4] == s[4]);
    assert(r[5] == s[5] && r[6] == s[6] && r[7] == s[7] && r[8] == s[8] && r[9] == s[9]);
    assert(r[10] == s[10] && r[11] == s[11] && r[12] == "home"@ && r[13] == s[12]);
}

proof fn lemma_home_relative(i: int)
    requires
        0 <= i < home_relative().len(),
    ensures
        home_relative()[i].len() > 0,
        home_relative()[i][0] != '/',
        home_relative()[i] == of_the_user()[i],
        home_relative().len() == of_the_user().len(),
{
    reveal_strlit(".ssh");
    reveal_strlit(".gnupg");
    reveal_strlit(".password-store");
    reveal_strlit(".mozilla");
    reveal_strlit(".config/badger");
    let r = home_relative();
    let s = of_the_user();
    assert(r[0] == s[0] && r[1] == s[1] && r[2] == s[2] && r[3] == s[3] && r[4] == s[4]);
}

proof fn lemma_joined_below(base: Seq<char>, rel: Seq<char>)
    requires
        base.len() > 0,
        rel.len() > 0,
        rel[0] != '/',
    ensures
        paths::joined(base, rel) == paths::below(base, rel),
{
    reveal_strlit("/");
    assert("/"@ =~= seq!['/']);
}

/// Which of the protected places the `i`-th is.
proof fn lemma_denied_path(root: Seq<char>, home: Seq<char>, i: int)
    requires
        root.len() > 0,
        home.len() > 0,
        0 <= i < denied_paths(root, home).len(),
    ensures
        denied_paths(root, home).len() == 21,
        i == 0 ==> denied_paths(root, home)[i] == root,
        1 <= i < 13 ==> denied_paths(root, home)[i] == paths::below(
            root,
            of_the_system()[i - 1],
        ),
        i == 13 ==> denied_paths(root, home)[i] == paths::below(root, "home"@),
        i == 14 ==> denied_paths(root, home)[i] == paths::below(root, of_the_system()[12]),
        i == 15 ==> denied_paths(root, home)[i] == home,
        16 <= i ==> denied_paths(root, home)[i] == paths::below(home, of_the_user()[i - 16]),
{
    assert(root_relative().len() == 14);
    assert(home_relative().len() == 5);
    if 1 <= i < 15 {
        lemma_root_relative(i - 1);
        lemma_joined_below(root, root_relative()[i - 1]);
    }
    if i >= 16 {
        lemma_home_relative(i - 16);
        lemma_joined_below(home, home_relative()[i - 16]);
    }
}

proof fn lemma_clear(place: Seq<char>, root: Seq<char>, home: Seq<char>)
    requires
        root.len() > 0,
        home.len() > 0,
    ensures
        clear_of_all(place, root, home) ==> !denied(place, root, home),
{
    if clear_of_all(place, root, home) && denied(place, root, home) {
        let all = denied_paths(root, home);
        let i = choose|i: int|
            0 <= i < all.len() && forbids(#[trigger] all[i], place, root, home);
        lemma_denied_path(root, home, i);
        lemma_same_is_under(place, all[i]);
        let b = paths::joined(root, "home"@);
        lemma_denied_path(root, home, 13);
        if 1 <= i < 13 {
            assert(!touches(place, paths::below(root, of_the_system()[i - 1])));
        } else if i == 14 {
            assert(!touches(place, paths::below(root, of_the_system()[12])));
        } else if i >= 16 {
            assert(!touches(place, paths::below(home, of_the_user()[i - 16])));
        } else {
            lemma_boundary(root, home, i);
        }
    }
}

proof fn lemma_boundary(root: Seq<char>, home: Seq<char>, i: int)
    requires
        root.len() > 0,
        home.len() > 0,
        i == 0 || i == 13 || i == 15,
    ensures
        boundary(denied_paths(root, home)[i], root, home),
{
    lemma_denied_path(root, home, i);
    if i == 13 {
        lemma_root_relative(12);
        lemma_joined_below(root, "home"@);
    }
}

proof fn lemma_same_is_under(a: Seq<char>, b: Seq<char>)
    ensures
        paths::same_path(a, b) ==> paths::under(a, b) && paths::under(b, a),
{
    if paths::same_path(a, b) {
        assert(paths::names(a).take(paths::names(a).len() as int) =~= paths::names(a));
    }
}

/// What may not be deleted, may not: nothing that lies in, or holds, what is
/// the system's or the user's own; nothing that holds the root or the home
/// directory; nothing outside the allowed places, nothing too near to home or
/// root, no mount point, and for the user nothing of somebody else.
pub proof fn law_what_must_stay_stays(
    up: Seq<char>,
    last: Seq<char>,
    name: Seq<char>,
    dir: Seq<char>,
    allowed: Seq<Seq<char>>,
    tier: Tier,
    env: &SafetyEnv,
    host: &Host,
    i: int,
)
    requires
        paths::entry_name(last),
        paths::entry_name(name),
        host.real_path(up + "/"@ + last) == Some(dir),
        dir.len() > 0,
        env.root@.len() > 0,
        env.home@.len() > 0,
        verdict(up + "/"@ + last + "/"@ + name, allowed, tier, env, host) is None,
    ensures
        ({
            let path = up + "/"@ + last + "/"@ + name;
            let place = paths::below(dir, name);
            let root = env.root@;
            let home = env.home@;
            &&& 0 <= i < of_the_system().len() ==> {
                let d = paths::below(root, of_the_system()[i]);
                &&& !paths::under(d, place)
                &&& !paths::same_path(d, root) && !paths::same_path(d, home)
                    && !paths::same_path(d, paths::below(root, "home"@)) ==> !paths::under(
                    place,
                    d,
                )
            }
            &&& 0 <= i < of_the_user().len() ==> {
                let d = paths::below(home, of_the_user()[i]);
                &&& !paths::under(d, place)
                &&& !paths::same_path(d, root) && !paths::same_path(d, home)
                    && !paths::same_path(d, paths::below(root, "home"@)) ==> !paths::under(
                    place,
                    d,
                )
            }
            &&& !paths::under(root, place) && !paths::under(home, place) && !paths::under(
                paths::below(root, "home"@),
                place,
            )
            &&& host.found(path) is Some
            &&& tier == Tier::User ==> host.found(path)->0.uid == env.euid
            &&& exists|k: int|
                0 <= k < allowed.len() && host.real_path(#[trigger] allowed[k]) is Some
                    && paths::under(place, host.real_path(allowed[k])->0)
            &&& forall|k: int|
                0 <= k < env.mount_points@.len() ==> !paths::same_path(
                    (#[trigger] env.mount_points@[k])@,
                    place,
                )
            &&& host.real_path(home) == Some(home) && paths::under(place, home)
                ==> paths::names(place).len() >= paths::names(home).len() + 2
            &&& host.real_path(home) == Some(home) && host.real_path(root) == Some(root)
                && !paths::under(place, home) ==> paths::under(place, root) && paths::names(
                place,
            ).len() >= paths::names(root).len() + 3
        }),
{
    reveal_strlit("/");
    assert("/"@ =~= seq!['/']);
    paths::law_the_parent_of_a_child(up, last, name);
    paths::law_a_child_adds_its_name(up + "/"@ + last, name);
    paths::lemma_below(dir, name);
    let path = up + "/"@ + last + "/"@ + name;
    let place = paths::below(dir, name);
    assert(effective(path, dir) == place);
    let all = denied_paths(env.root@, env.home@);
    assert(all.len() == 21);
    assert forall|k: int| 0 <= k < all.len() implies !forbids(
        #[trigger] all[k],
        place,
        env.root@,
        env.home@,
    ) by {}
    lemma_denied_path(env.root@, env.home@, 0);
    lemma_denied_path(env.root@, env.home@, 13);
    lemma_denied_path(env.root@, env.home@, 15);
    assert(!forbids(all[0], place, env.root@, env.home@));
    assert(!forbids(all[13], place, env.root@, env.home@));
    assert(!forbids(all[15], place, env.root@, env.home@));
    lemma_root_relative(12);
    lemma_joined_below(env.root@, "home"@);
    if 0 <= i < 13 {
        let k = if i < 12 {
            i + 1
        } else {
            14
        };
        lemma_denied_path(env.root@, env.home@, k);
        assert(!forbids(all[k], place, env.root@, env.home@));
    }
    if 0 <= i < 5 {
        lemma_denied_path(env.root@, env.home@, i + 16);
        assert(!forbids(all[i + 16], place, env.root@, env.home@));
    }
    let k = choose|k: int|
        0 <= k < allowed.len() && (match host.real_path(#[trigger] allowed[k]) {
            Some(prefix) => paths::under(place, prefix),
            None => false,
        });
    assert(host.real_path(allowed[k]) is Some);
    let mounts = text::texts(env.mount_points@);
    assert forall|k: int| 0 <= k < env.mount_points@.len() implies !paths::same_path(
        (#[trigger] env.mount_points@[k])@,
        place,
    ) by {
        assert(mounts[k] == env.mount_points@[k]@);
        assert(!paths::same_path(mounts[k], place));
    }
}

/// What keeps clear of all that, lies deep enough in an allowed place, is no
/// mount point and belongs to the user, or is asked for by root, may be
/// deleted.
pub proof fn law_what_is_clear_may_go(
    up: Seq<char>,
    last: Seq<char>,
    name: Seq<char>,
    dir: Seq<char>,
    allowed: Seq<Seq<char>>,
    tier: Tier,
    env: &SafetyEnv,
    host: &Host,
    k: int,
)
    requires
        paths::entry_name(last),
        paths::entry_name(name),
        host.real_path(up + "/"@ + last) == Some(dir),
        dir.len() > 0,
        env.root@.len() > 0,
        env.home@.len() > 0,
        host.real_path(env.home@) == Some(env.home@),
        host.real_path(env.root@) == Some(env.root@),
        host.found(up + "/"@ + last + "/"@ + name) is Some,
        tier == Tier::System || host.found(up + "/"@ + last + "/"@ + name)->0.uid == env.euid,
        clear_of_all(paths::below(dir, name), env.root@, env.home@),
        0 <= k < allowed.len(),
        host.real_path(allowed[k]) is Some,
        paths::under(paths::below(dir, name), host.real_path(allowed[k])->0),
        forall|m: int|
            0 <= m < env.mount_points@.len() ==> !paths::same_path(
                (#[trigger] env.mount_points@[m])@,
                paths::below(dir, name),
            ),
        ({
            let place = paths::below(dir, name);
            if paths::under(place, env.home@) {
                paths::names(place).len() >= paths::names(env.home@).len() + 2
            } else {
                paths::under(place, env.root@) && paths::names(place).len() >= paths::names(
                    env.root@,
                ).len() + 3
            }
        }),
    ensures
        verdict(up + "/"@ + last + "/"@ + name, allowed, tier, env, host) is None,
{
    reveal_strlit("/");
    assert("/"@ =~= seq!['/']);
    paths::law_the_parent_of_a_child(up, last, name);
    paths::law_a_child_adds_its_name(up + "/"@ + last, name);
    paths::lemma_below(dir, name);
    let path = up + "/"@ + last + "/"@ + name;
    let place = paths::below(dir, name);
    assert(effective(path, dir) == place);
    lemma_clear(place, env.root@, env.home@);
    assert(inside(place, allowed, host));
    let mounts = text::texts(env.mount_points@);
    if mounted(place, mounts) {
        let m = choose|m: int| 0 <= m < mounts.len() && paths::same_path(#[trigger] mounts[m], place);
        assert(env.mount_points@[m]@ == mounts[m]);
    }
}

/// Every byte is read back from its three octal digits, and nothing beyond a
/// byte is.
pub proof fn law_bytes_are_read_from_octal(h: u8, m: u8, l: u8)
    requires
        h < 8,
        m < 8,
        l < 8,
    ensures
        ({
            let n = h * 64 + m * 8 + l;
            let read = octal_byte((48 + h) as u8, (48 + m) as u8, (48 + l) as u8);
            &&& n < 256 ==> read == Some(n as u8)
            &&& n >= 256 ==> read is None
        }),
{
}

} // verus!

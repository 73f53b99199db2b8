//! What the user never wants touched.

use vstd::prelude::*;

use crate::text;
use crate::text::{concat3, concat4, decimal_text};

verus! {

broadcast use vstd::seq::group_seq_axioms;

// --------------------------------------------------------------------- globset

/// `globset::Glob`: one pattern that was accepted.
#[verifier::external_type_specification]
#[verifier::external_body]
pub struct ExGlob(globset::Glob);

/// `globset::GlobSetBuilder`: a list of patterns that grows.
#[verifier::external_type_specification]
#[verifier::external_body]
pub struct ExGlobSetBuilder(globset::GlobSetBuilder);

/// `globset::GlobSet`: a set of patterns to match paths against.
#[verifier::external_type_specification]
#[verifier::external_body]
pub struct ExGlobSet(globset::GlobSet);

/// What `Glob::new` says of a pattern: the text of its error, or nothing.
pub uninterp spec fn glob_error(pattern: Seq<char>) -> Option<Seq<char>>;

/// Whether a pattern matches a path.
pub uninterp spec fn glob_matches(pattern: Seq<char>, path: Seq<char>) -> bool;

/// The patterns in a `Glob`: the one it was made from.
pub uninterp spec fn glob_patterns(glob: globset::Glob) -> Seq<Seq<char>>;

/// The patterns added to a `GlobSetBuilder`, in order.
pub uninterp spec fn builder_patterns(builder: globset::GlobSetBuilder) -> Seq<Seq<char>>;

/// The patterns in a `GlobSet`.
pub uninterp spec fn set_patterns(set: globset::GlobSet) -> Seq<Seq<char>>;

/// What `GlobSetBuilder::build` says of patterns: the text of its error, or
/// nothing.
pub uninterp spec fn set_error(patterns: Seq<Seq<char>>) -> Option<Seq<char>>;

/// `Glob::new`, its error as text. Whether a pattern is accepted, and the
/// text of the error, depend on the pattern alone; the `Glob` holds it.
#[verifier::external_body]
fn new_glob(pattern: &str) -> (r: Result<globset::Glob, String>)
    ensures
        match r {
            Ok(glob) => glob_error(pattern@) is None && glob_patterns(glob) == seq![pattern@],
            Err(cause) => glob_error(pattern@) == Some(cause@),
        },
{
    globset::Glob::new(pattern).map_err(|e| e.to_string())
}

/// `GlobSetBuilder::new`: no patterns.
#[verifier::external_body]
fn new_builder() -> (r: globset::GlobSetBuilder)
    ensures
        builder_patterns(r) == Seq::<Seq<char>>::empty(),
{
    globset::GlobSetBuilder::new()
}

/// `GlobSetBuilder::add`: one more pattern at the end.
#[verifier::external_body]
fn add_glob(builder: &mut globset::GlobSetBuilder, glob: globset::Glob)
    ensures
        builder_patterns(*final(builder)) == builder_patterns(*old(builder)) + glob_patterns(glob),
{
    builder.add(glob);
}

/// `GlobSetBuilder::build`, its error as text. Whether a set can be built
/// depends on the patterns that were added alone; no patterns always make
/// one. The set holds them.
#[verifier::external_body]
fn build_set(builder: &globset::GlobSetBuilder) -> (r: Result<globset::GlobSet, String>)
    ensures
        match r {
            Ok(set) => set_error(builder_patterns(*builder)) is None && set_patterns(set)
                == builder_patterns(*builder),
            Err(cause) => set_error(builder_patterns(*builder)) == Some(cause@),
        },
        builder_patterns(*builder).len() == 0 ==> r is Ok,
{
    builder.build().map_err(|e| e.to_string())
}

/// Whether any of the patterns matches.
pub open spec fn any_matches(patterns: Seq<Seq<char>>, path: Seq<char>) -> bool {
    exists|i: int| 0 <= i < patterns.len() && glob_matches(#[trigger] patterns[i], path)
}

/// `GlobSet::is_match`: whether any pattern of the set matches the path.
#[verifier::external_body]
fn set_matches(set: &globset::GlobSet, path: &str) -> (r: bool)
    ensures
        r == (exists|i: int|
            0 <= i < set_patterns(*set).len() && glob_matches(
                #[trigger] set_patterns(*set)[i],
                path@,
            )),
{
    set.is_match(path)
}

/// A set of one pattern, for matching names in a directory.
pub struct Pattern {
    set: globset::GlobSet,
}

impl Pattern {
    pub closed spec fn text(&self) -> Seq<Seq<char>> {
        set_patterns(self.set)
    }

    /// `None` for a pattern that is not accepted or cannot be built.
    pub fn new(pattern: &str) -> (r: Option<Pattern>)
        ensures
            r is Some <==> glob_error(pattern@) is None && set_error(seq![pattern@]) is None,
            r is Some ==> r->Some_0.text() == seq![pattern@],
    {
        let glob = match new_glob(pattern) {
            Ok(glob) => glob,
            Err(_) => {
                return None;
            },
        };
        let mut builder = new_builder();
        add_glob(&mut builder, glob);
        assert(builder_patterns(builder) =~= seq![pattern@]);
        match build_set(&builder) {
            Ok(set) => Some(Pattern { set }),
            Err(_) => None,
        }
    }

    pub fn matches(&self, name: &str) -> (r: bool)
        ensures
            r == any_matches(self.text(), name@),
    {
        set_matches(&self.set, name)
    }
}

// ------------------------------------------------------------------- the file

#[derive(Debug, PartialEq)]
pub enum WhitelistError {
    /// The pattern on this line, counted from 1, is not accepted.
    InvalidPattern { line: usize, pattern: String, cause: String },
    /// The patterns are accepted one by one but not together.
    Build { cause: String },
}

impl WhitelistError {
    pub open spec fn text(&self) -> Seq<char> {
        match self {
            WhitelistError::InvalidPattern { line, pattern, cause: _ } =>
                "invalid glob pattern on line "@ + text::decimal(*line as nat) + ": "@ + pattern@,
            WhitelistError::Build { cause: _ } => "failed to build whitelist globset"@,
        }
    }

    pub fn message(&self) -> (r: String)
        ensures
            r@ == self.text(),
    {
        match self {
            WhitelistError::InvalidPattern { line, pattern, cause: _ } => {
                let digits = decimal_text(*line as u64);
                concat4("invalid glob pattern on line ", digits.as_str(), ": ", pattern.as_str())
            },
            WhitelistError::Build { cause: _ } => "failed to build whitelist globset".to_owned(),
        }
    }
}

/// What a line of the whitelist is.
pub enum LineModel {
    Nothing,
    /// A rule that is switched off.
    Rule(Seq<char>),
    /// A pattern, as written.
    Pattern(Seq<char>),
}

/// Blank lines and those that start with `#` say nothing; `rule:<id>`
/// switches a rule off; anything else is a pattern.
pub open spec fn line_model(line: Seq<char>) -> LineModel {
    let t = text::trim(line);
    if t.len() == 0 || text::starts_with(t, "#"@) {
        LineModel::Nothing
    } else {
        match text::after_prefix(t, "rule:"@) {
            Some(id) => LineModel::Rule(text::trim(id)),
            None => LineModel::Pattern(t),
        }
    }
}

/// A pattern with its leading `~` replaced by the home directory.
pub open spec fn tilde_expanded(pattern: Seq<char>, home: Seq<char>) -> Seq<char> {
    match text::after_prefix(pattern, "~/"@) {
        Some(rest) => home + "/"@ + rest,
        None => if pattern == "~"@ {
            home
        } else {
            pattern
        },
    }
}

pub fn expand_tilde(pattern: &str, home: &str) -> (r: String)
    ensures
        r@ == tilde_expanded(pattern@, home@),
{
    match text::cut_prefix(pattern, "~/") {
        Some(rest) => concat3(home, "/", rest.as_str()),
        None => if text::same(pattern, "~") {
            home.to_owned()
        } else {
            pattern.to_owned()
        },
    }
}

/// The patterns of the first `n` lines, as written.
pub open spec fn patterns_upto(lines: Seq<Seq<char>>, n: int) -> Seq<Seq<char>>
    decreases n,
{
    if n <= 0 {
        Seq::empty()
    } else {
        match line_model(lines[n - 1]) {
            LineModel::Pattern(p) => patterns_upto(lines, n - 1).push(p),
            _ => patterns_upto(lines, n - 1),
        }
    }
}

/// The rules that the first `n` lines switch off.
pub open spec fn rules_upto(lines: Seq<Seq<char>>, n: int) -> Seq<Seq<char>>
    decreases n,
{
    if n <= 0 {
        Seq::empty()
    } else {
        match line_model(lines[n - 1]) {
            LineModel::Rule(id) => rules_upto(lines, n - 1).push(id),
            _ => rules_upto(lines, n - 1),
        }
    }
}

pub open spec fn all_expanded(patterns: Seq<Seq<char>>, home: Seq<char>) -> Seq<Seq<char>> {
    Seq::new(patterns.len(), |i: int| tilde_expanded(patterns[i], home))
}

/// Whether the pattern on line `k`, if it is one, is accepted.
pub open spec fn line_accepted(line: Seq<char>, home: Seq<char>) -> bool {
    match line_model(line) {
        LineModel::Pattern(p) => glob_error(tilde_expanded(p, home)) is None,
        _ => true,
    }
}

pub struct Whitelist {
    globset: globset::GlobSet,
    raw_lines: Vec<String>,
    disabled_rules: Vec<String>,
}

impl Whitelist {
    /// The patterns that are matched, `~` replaced.
    pub closed spec fn patterns(&self) -> Seq<Seq<char>> {
        set_patterns(self.globset)
    }

    /// The patterns as written.
    pub closed spec fn written(&self) -> Seq<Seq<char>> {
        text::texts(self.raw_lines@)
    }

    /// The rules that are switched off.
    pub closed spec fn disabled(&self) -> Seq<Seq<char>> {
        text::texts(self.disabled_rules@)
    }

    /// Whether the user wants `path` left alone.
    pub open spec fn covers(&self, path: Seq<char>) -> bool {
        any_matches(self.patterns(), path)
    }

    pub fn matches(&self, path: &str) -> (r: bool)
        ensures
            r == self.covers(path@),
    {
        set_matches(&self.globset, path)
    }

    pub fn rule_disabled(&self, id: &str) -> (r: bool)
        ensures
            r == self.disabled().contains(id@),
    {
        text::holds(&self.disabled_rules, id)
    }

    pub fn raw_lines(&self) -> (r: &Vec<String>)
        ensures
            text::texts(r@) == self.written(),
    {
        &self.raw_lines
    }
}

/// Reads a whitelist. The first pattern that is not accepted is an error
/// that names its line.
pub fn parse(contents: &str, home: &str) -> (r: Result<Whitelist, WhitelistError>)
    ensures
        ({
            let lines = text::lines(contents@);
            match r {
                Ok(w) => {
                    &&& forall|k: int|
                        0 <= k < lines.len() ==> line_accepted(#[trigger] lines[k], home@)
                    &&& w.written() == patterns_upto(lines, lines.len() as int)
                    &&& w.disabled() == rules_upto(lines, lines.len() as int)
                    &&& w.patterns() == all_expanded(w.written(), home@)
                    &&& set_error(w.patterns()) is None
                },
                Err(WhitelistError::InvalidPattern { line, pattern, cause }) => {
                    &&& 1 <= line <= lines.len()
                    &&& forall|k: int|
                        0 <= k < line - 1 ==> line_accepted(#[trigger] lines[k], home@)
                    &&& line_model(lines[line - 1]) == LineModel::Pattern(pattern@)
                    &&& glob_error(tilde_expanded(pattern@, home@)) == Some(cause@)
                },
                Err(WhitelistError::Build { cause }) => {
                    &&& forall|k: int|
                        0 <= k < lines.len() ==> line_accepted(#[trigger] lines[k], home@)
                    &&& set_error(
                        all_expanded(patterns_upto(lines, lines.len() as int), home@),
                    ) == Some(cause@)
                },
            }
        }),
{
    let list = text::split_lines(contents);
    let ghost all = text::texts(list@);
    let mut builder = new_builder();
    let mut raw_lines: Vec<String> = Vec::new();
    let mut disabled_rules: Vec<String> = Vec::new();
    let mut i: usize = 0;
    assert(text::texts(raw_lines@) =~= Seq::empty());
    assert(text::texts(disabled_rules@) =~= Seq::empty());
    assert(all_expanded(Seq::empty(), home@) =~= Seq::empty());
    assert(all.len() == list.len());
    while i < list.len()
        invariant
            i <= list.len(),
            all == text::texts(list@),
            all == text::lines(contents@),
            text::texts(raw_lines@) == patterns_upto(all, i as int),
            text::texts(disabled_rules@) == rules_upto(all, i as int),
            builder_patterns(builder) == all_expanded(text::texts(raw_lines@), home@),
            forall|k: int| 0 <= k < i ==> line_accepted(#[trigger] all[k], home@),
        decreases list.len() - i,
    {
        assert(all[i as int] == list@[i as int]@);
        let line = text::trimmed(list[i].as_str());
        let ghost written = raw_lines@;
        let ghost off = disabled_rules@;
        if !line.as_str().is_empty() && !text::has_prefix(line.as_str(), "#") {
            if let Some(id) = text::cut_prefix(line.as_str(), "rule:") {
                let id = text::trimmed(id.as_str());
                disabled_rules.push(id);
                assert(text::texts(disabled_rules@) =~= text::texts(off).push(id@));
            } else {
                let expanded = expand_tilde(line.as_str(), home);
                match new_glob(expanded.as_str()) {
                    Ok(glob) => {
                        add_glob(&mut builder, glob);
                        raw_lines.push(line);
                        assert(text::texts(raw_lines@) =~= text::texts(written).push(line@));
                        assert(builder_patterns(builder) =~= all_expanded(
                            text::texts(raw_lines@),
                            home@,
                        ));
                    },
                    Err(cause) => {
                        return Err(
                            WhitelistError::InvalidPattern { line: i + 1, pattern: line, cause },
                        );
                    },
                }
            }
        }
        i += 1;
    }
    match build_set(&builder) {
        Ok(globset) => Ok(Whitelist { globset, raw_lines, disabled_rules }),
        Err(cause) => Err(WhitelistError::Build { cause }),
    }
}

// ------------------------------------------------------------------------ laws


/// A line that is empty or starts with `#` says nothing, one with `rule:`
/// switches a rule off, and any other is a pattern; space around it does not
/// matter.
pub proof fn law_lines_say_what_is_written(lead: Seq<char>, s: Seq<char>, end: Seq<char>)
    requires
        text::bare(s),
        forall|i: int| 0 <= i < lead.len() ==> text::white(#[trigger] lead[i]),
        forall|i: int| 0 <= i < end.len() ==> text::white(#[trigger] end[i]),
    ensures
        s.len() == 0 || s[0] == '#' ==> line_model(lead + s + end) == LineModel::Nothing,
        s.len() > 0 && s[0] != '#' && !text::starts_with(s, "rule:"@) ==> line_model(
            lead + s + end,
        ) == LineModel::Pattern(s),
        forall|id: Seq<char>|
            s == #[trigger] ("rule:"@ + id) && text::bare(id) ==> line_model(lead + s + end)
                == LineModel::Rule(id),
{
    text::law_trim_takes_the_ends(lead, s, end);
    reveal_strlit("#");
    reveal_strlit("rule:");
    if s.len() > 0 {
        assert(s.subrange(0, 1) =~= seq![s[0]]);
        assert("#"@ =~= seq!['#']);
        assert(seq![s[0]][0] == s[0] && seq!['#'][0] == '#');
    }
    assert forall|id: Seq<char>| s == #[trigger] ("rule:"@ + id) && text::bare(id) implies line_model(
        lead + s + end,
    ) == LineModel::Rule(id) by {
        assert(s.subrange(0, 5) =~= "rule:"@);
        assert(s.skip(5) =~= id);
        assert(s[0] == 'r');
        text::lemma_trim_of_bare(id);
    }
}

/// What starts with `~` is looked for below the home directory.
pub proof fn law_patterns_start_at_home(rest: Seq<char>, pattern: Seq<char>, home: Seq<char>)
    ensures
        tilde_expanded("~/"@ + rest, home) == home + "/"@ + rest,
        tilde_expanded("~"@, home) == home,
        pattern.len() > 0 && pattern[0] != '~' ==> tilde_expanded(pattern, home) == pattern,
{
    reveal_strlit("~/");
    reveal_strlit("~");
    let p = "~/"@ + rest;
    assert(p.subrange(0, 2) =~= "~/"@);
    assert(p.skip(2) =~= rest);
    assert(!text::starts_with("~"@, "~/"@));
    if pattern.len() > 0 && pattern[0] != '~' {
        if text::starts_with(pattern, "~/"@) {
            assert(pattern.subrange(0, 2)[0] == pattern[0]);
            assert("~/"@[0] == '~');
        }
        assert("~"@[0] == '~');
    }
}

proof fn lemma_patterns_upto(lines: Seq<Seq<char>>, n: int, p: Seq<char>)
    requires
        0 <= n <= lines.len(),
    ensures
        patterns_upto(lines, n).contains(p) <==> exists|k: int|
            0 <= k < n && line_model(#[trigger] lines[k]) == LineModel::Pattern(p),
        rules_upto(lines, n).contains(p) <==> exists|k: int|
            0 <= k < n && line_model(#[trigger] lines[k]) == LineModel::Rule(p),
    decreases n,
{
    if n > 0 {
        lemma_patterns_upto(lines, n - 1, p);
        let a = patterns_upto(lines, n - 1);
        let b = patterns_upto(lines, n);
        let c = rules_upto(lines, n - 1);
        let d = rules_upto(lines, n);
        let m = line_model(lines[n - 1]);
        if a.contains(p) {
            let i = choose|i: int| 0 <= i < a.len() && a[i] == p;
            assert(b[i] == p);
        }
        if c.contains(p) {
            let i = choose|i: int| 0 <= i < c.len() && c[i] == p;
            assert(d[i] == p);
        }
        if m == LineModel::Pattern(p) {
            assert(b[a.len() as int] == p);
        }
        if m == LineModel::Rule(p) {
            assert(d[c.len() as int] == p);
        }
        if b.contains(p) && !a.contains(p) {
            let i = choose|i: int| 0 <= i < b.len() && b[i] == p;
            if i < a.len() {
                assert(a[i] == p);
            }
            assert(line_model(lines[n - 1]) == LineModel::Pattern(p));
        }
        if d.contains(p) && !c.contains(p) {
            let i = choose|i: int| 0 <= i < d.len() && d[i] == p;
            if i < c.len() {
                assert(c[i] == p);
            }
            assert(line_model(lines[n - 1]) == LineModel::Rule(p));
        }
    }
}

/// A path is covered where a pattern of the file matches it, `~` read as the
/// home directory, and a rule is off where a line says so.
pub proof fn law_the_file_is_obeyed(
    lines: Seq<Seq<char>>,
    home: Seq<char>,
    path: Seq<char>,
    id: Seq<char>,
)
    ensures
        any_matches(
            all_expanded(patterns_upto(lines, lines.len() as int), home),
            path,
        ) <==> exists|k: int, p: Seq<char>|
            0 <= k < lines.len() && #[trigger] line_model(lines[k]) == LineModel::Pattern(p)
                && #[trigger] glob_matches(tilde_expanded(p, home), path),
        rules_upto(lines, lines.len() as int).contains(id) <==> exists|k: int|
            0 <= k < lines.len() && line_model(#[trigger] lines[k]) == LineModel::Rule(id),
{
    let list = patterns_upto(lines, lines.len() as int);
    let all = all_expanded(list, home);
    lemma_patterns_upto(lines, lines.len() as int, id);
    if any_matches(all, path) {
        let i = choose|i: int| 0 <= i < all.len() && glob_matches(#[trigger] all[i], path);
        let p = list[i];
        assert(list.contains(p));
        lemma_patterns_upto(lines, lines.len() as int, p);
        let k = choose|k: int|
            0 <= k < lines.len() && line_model(#[trigger] lines[k]) == LineModel::Pattern(p);
        assert(line_model(lines[k]) == LineModel::Pattern(p));
        assert(glob_matches(tilde_expanded(p, home), path));
    }
    if exists|k: int, p: Seq<char>|
        0 <= k < lines.len() && #[trigger] line_model(lines[k]) == LineModel::Pattern(p)
            && #[trigger] glob_matches(tilde_expanded(p, home), path) {
        let (k, p) = choose|k: int, p: Seq<char>|
            0 <= k < lines.len() && #[trigger] line_model(lines[k]) == LineModel::Pattern(p)
                && #[trigger] glob_matches(tilde_expanded(p, home), path);
        lemma_patterns_upto(lines, lines.len() as int, p);
        assert(line_model(lines[k]) == LineModel::Pattern(p));
        let i = choose|i: int| 0 <= i < list.len() && list[i] == p;
        assert(all[i] == tilde_expanded(p, home));
        assert(glob_matches(all[i], path));
    }
}

} // verus!

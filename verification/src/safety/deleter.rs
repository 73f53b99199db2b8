//! Deletes a tree, one step at a time: the deleter says what to do next and
//! is told what came of it. Links are unlinked and never followed, and what
//! lies on another filesystem than the top of the tree is left alone.

use vstd::prelude::*;

use crate::text;

verus! {

broadcast use vstd::seq::group_seq_axioms;

/// What was left of a deletion.
#[derive(Debug)]
pub struct DeleteReport {
    pub bytes_freed: u64,
    pub files: u64,
    pub errors: Vec<(String, String)>,
}

pub open spec fn error_views(v: Seq<(String, String)>) -> Seq<(Seq<char>, Seq<char>)> {
    Seq::new(v.len(), |i: int| (v[i].0@, v[i].1@))
}

/// What is known of a path, links not followed.
#[derive(Debug, Clone, Copy)]
pub struct Metadata {
    pub is_dir: bool,
    pub dev: u64,
    /// Blocks of 512 bytes.
    pub blocks: u64,
}

/// What is to be done next.
#[derive(Debug, PartialEq)]
pub enum Action {
    Stat(String),
    List(String),
    Unlink(String),
    RemoveDir(String),
    Done,
}

pub enum ActionModel {
    Stat(Seq<char>),
    List(Seq<char>),
    Unlink(Seq<char>),
    RemoveDir(Seq<char>),
    Done,
}

impl View for Action {
    type V = ActionModel;

    open spec fn view(&self) -> ActionModel {
        match self {
            Action::Stat(p) => ActionModel::Stat(p@),
            Action::List(p) => ActionModel::List(p@),
            Action::Unlink(p) => ActionModel::Unlink(p@),
            Action::RemoveDir(p) => ActionModel::RemoveDir(p@),
            Action::Done => ActionModel::Done,
        }
    }
}

/// Something that is still ahead.
#[derive(Debug)]
pub enum Todo {
    /// A path to be looked at and deleted.
    Visit(String),
    /// A directory to be removed once it is empty.
    Sweep(String),
    /// An error to be told of when its turn comes.
    Note(String, String),
}

pub enum TodoModel {
    Visit(Seq<char>),
    Sweep(Seq<char>),
    Note(Seq<char>, Seq<char>),
}

impl View for Todo {
    type V = TodoModel;

    open spec fn view(&self) -> TodoModel {
        match self {
            Todo::Visit(p) => TodoModel::Visit(p@),
            Todo::Sweep(p) => TodoModel::Sweep(p@),
            Todo::Note(p, e) => TodoModel::Note(p@, e@),
        }
    }
}

pub open spec fn todos(v: Seq<Todo>) -> Seq<TodoModel> {
    Seq::new(v.len(), |i: int| v[i]@)
}

/// A deletion under way.
#[derive(Debug)]
pub struct Deleter {
    /// What comes next is last.
    pub ahead: Vec<Todo>,
    /// The path of the action that was asked for.
    pub at: String,
    /// The filesystem of the top of the tree, once known.
    pub top_dev: Option<u64>,
    /// What unlinking the current path frees.
    pub frees: u64,
    pub report: DeleteReport,
}

/// A deletion as a mathematical value.
#[verifier::ext_equal]
pub struct State {
    pub ahead: Seq<TodoModel>,
    pub at: Seq<char>,
    pub top_dev: Option<u64>,
    pub frees: u64,
    pub bytes_freed: u64,
    pub files: u64,
    pub errors: Seq<(Seq<char>, Seq<char>)>,
}

impl View for Deleter {
    type V = State;

    open spec fn view(&self) -> State {
        State {
            ahead: todos(self.ahead@),
            at: self.at@,
            top_dev: self.top_dev,
            frees: self.frees,
            bytes_freed: self.report.bytes_freed,
            files: self.report.files,
            errors: error_views(self.report.errors@),
        }
    }
}

/// The next thing to do, with the errors told that come before it.
pub open spec fn turned(s: State) -> (State, ActionModel)
    decreases s.ahead.len(),
{
    if s.ahead.len() == 0 {
        (s, ActionModel::Done)
    } else {
        let rest = s.ahead.drop_last();
        match s.ahead.last() {
            TodoModel::Visit(p) => (State { ahead: rest, at: p, ..s }, ActionModel::Stat(p)),
            TodoModel::Sweep(p) => (
                State { ahead: rest, at: p, frees: 0, ..s },
                ActionModel::RemoveDir(p),
            ),
            TodoModel::Note(p, e) => turned(
                State { ahead: rest, errors: s.errors.push((p, e)), ..s },
            ),
        }
    }
}

/// The state with an error on the current path.
pub open spec fn failed(s: State, error: Seq<char>) -> State {
    State { errors: s.errors.push((s.at, error)), ..s }
}

pub const BOUNDARY: &'static str = "skipped: crosses filesystem boundary";

/// The bytes in so many blocks, or the largest number there is.
pub open spec fn bytes_of(blocks: u64) -> u64 {
    if blocks * 512 > u64::MAX {
        u64::MAX
    } else {
        (blocks * 512) as u64
    }
}

pub fn block_bytes(blocks: u64) -> (r: u64)
    ensures
        r == bytes_of(blocks),
{
    match blocks.checked_mul(512) {
        Some(bytes) => bytes,
        None => u64::MAX,
    }
}

/// What follows from what the current path is.
pub open spec fn after_stat(s: State, found: Result<Metadata, Seq<char>>) -> (State, ActionModel) {
    match found {
        Err(e) => turned(failed(s, e)),
        Ok(m) => {
            let top = match s.top_dev {
                Some(dev) => dev,
                None => m.dev,
            };
            let s = State { top_dev: Some(top), ..s };
            if !m.is_dir {
                (State { frees: bytes_of(m.blocks), ..s }, ActionModel::Unlink(s.at))
            } else if m.dev != top {
                turned(failed(s, BOUNDARY@))
            } else {
                (s, ActionModel::List(s.at))
            }
        },
    }
}

/// One name of a listing, as something ahead.
pub open spec fn child_todo(dir: Seq<char>, child: Result<Seq<char>, Seq<char>>) -> TodoModel {
    match child {
        Ok(p) => TodoModel::Visit(p),
        Err(e) => TodoModel::Note(dir, e),
    }
}

/// What follows from a listing of the current path: its children in order,
/// then the directory itself.
pub open spec fn after_list(
    s: State,
    children: Result<Seq<Result<Seq<char>, Seq<char>>>, Seq<char>>,
) -> (State, ActionModel) {
    match children {
        Err(e) => turned(failed(s, e)),
        Ok(list) => turned(
            State {
                ahead: s.ahead.push(TodoModel::Sweep(s.at)) + Seq::new(
                    list.len(),
                    |i: int| child_todo(s.at, list[list.len() - 1 - i]),
                ),
                ..s
            },
        ),
    }
}

/// A number, or the largest there is.
pub open spec fn capped(n: int) -> u64 {
    if n > u64::MAX {
        u64::MAX
    } else {
        n as u64
    }
}

pub open spec fn capped_sum(a: u64, b: u64) -> u64 {
    capped(a + b)
}

/// What follows from unlinking the current path.
pub open spec fn after_unlink(s: State, error: Option<Seq<char>>) -> (State, ActionModel) {
    match error {
        Some(e) => turned(failed(s, e)),
        None => turned(
            State {
                bytes_freed: capped_sum(s.bytes_freed, s.frees),
                files: capped_sum(s.files, 1),
                ..s
            },
        ),
    }
}

/// What follows from removing the current directory.
pub open spec fn after_remove_dir(s: State, error: Option<Seq<char>>) -> (State, ActionModel) {
    match error {
        Some(e) => turned(failed(s, e)),
        None => turned(s),
    }
}

pub open spec fn stat_view(r: Result<Metadata, String>) -> Result<Metadata, Seq<char>> {
    match r {
        Ok(m) => Ok(m),
        Err(e) => Err(e@),
    }
}

pub open spec fn child_view(r: Result<String, String>) -> Result<Seq<char>, Seq<char>> {
    match r {
        Ok(p) => Ok(p@),
        Err(e) => Err(e@),
    }
}

pub open spec fn list_view(r: Result<Vec<Result<String, String>>, String>) -> Result<
    Seq<Result<Seq<char>, Seq<char>>>,
    Seq<char>,
> {
    match r {
        Ok(v) => Ok(Seq::new(v@.len(), |i: int| child_view(v@[i]))),
        Err(e) => Err(e@),
    }
}

impl Deleter {
    /// Starts on the tree at `path`.
    pub fn start(path: &str) -> (r: (Deleter, Action))
        ensures
            r.0@ == (State {
                ahead: Seq::empty(),
                at: path@,
                top_dev: None,
                frees: 0,
                bytes_freed: 0,
                files: 0,
                errors: Seq::empty(),
            }),
            r.1@ == ActionModel::Stat(path@),
    {
        let d = Deleter {
            ahead: Vec::new(),
            at: path.to_owned(),
            top_dev: None,
            frees: 0,
            report: DeleteReport { bytes_freed: 0, files: 0, errors: Vec::new() },
        };
        assert(d@.ahead =~= Seq::empty());
        assert(d@.errors =~= Seq::empty());
        (d, Action::Stat(path.to_owned()))
    }

    fn turn(&mut self) -> (r: Action)
        ensures
            (final(self)@, r@) == turned(old(self)@),
    {
        let ghost start = self@;
        while self.ahead.len() > 0
            invariant
                start == old(self)@,
                turned(start) == turned(self@),
            decreases self.ahead.len(),
        {
            let ghost had = self.ahead@;
            let ghost errors = self.report.errors@;
            match self.ahead.pop() {
                Some(Todo::Visit(p)) => {
                    assert(todos(self.ahead@) =~= todos(had).drop_last());
                    self.at = p.clone();
                    return Action::Stat(p);
                },
                Some(Todo::Sweep(p)) => {
                    assert(todos(self.ahead@) =~= todos(had).drop_last());
                    self.at = p.clone();
                    self.frees = 0;
                    return Action::RemoveDir(p);
                },
                Some(Todo::Note(p, e)) => {
                    assert(todos(self.ahead@) =~= todos(had).drop_last());
                    self.report.errors.push((p, e));
                    assert(error_views(self.report.errors@) =~= error_views(errors).push(
                        (p@, e@),
                    ));
                },
                None => {},
            }
        }
        Action::Done
    }

    fn fail(&mut self, error: &str)
        ensures
            final(self)@ == failed(old(self)@, error@),
    {
        let ghost errors = self.report.errors@;
        self.report.errors.push((self.at.clone(), error.to_owned()));
        assert(error_views(self.report.errors@) =~= error_views(errors).push(
            (self.at@, error@),
        ));
    }

    /// Told what the path to be looked at is.
    pub fn on_stat(&mut self, found: Result<Metadata, String>) -> (r: Action)
        ensures
            (final(self)@, r@) == after_stat(old(self)@, stat_view(found)),
    {
        match found {
            Err(e) => {
                self.fail(e.as_str());
                self.turn()
            },
            Ok(m) => {
                let top: u64 = match self.top_dev {
                    Some(dev) => dev,
                    None => m.dev,
                };
                self.top_dev = Some(top);
                if !m.is_dir {
                    self.frees = block_bytes(m.blocks);
                    Action::Unlink(self.at.clone())
                } else if m.dev != top {
                    self.fail(BOUNDARY);
                    self.turn()
                } else {
                    Action::List(self.at.clone())
                }
            },
        }
    }

    /// Told what is in the directory.
    pub fn on_list(&mut self, children: Result<Vec<Result<String, String>>, String>) -> (r: Action)
        ensures
            (final(self)@, r@) == after_list(old(self)@, list_view(children)),
    {
        match children {
            Err(e) => {
                self.fail(e.as_str());
                self.turn()
            },
            Ok(list) => {
                let ghost start = self@;
                let ghost all = Seq::new(list@.len(), |i: int| child_view(list@[i]));
                let ghost n = list@.len() as int;
                let ghost had0 = self.ahead@;
                self.ahead.push(Todo::Sweep(self.at.clone()));
                assert(todos(self.ahead@) =~= todos(had0).push(TodoModel::Sweep(self.at@)));
                let ghost base = todos(self.ahead@);
                let ghost extra = Seq::new(
                    all.len(),
                    |i: int| child_todo(start.at, all[all.len() - 1 - i]),
                );
                let mut k: usize = list.len();
                assert(base + extra.take(0) =~= base);
                while k > 0
                    invariant
                        k <= n == list@.len(),
                        all == Seq::new(list@.len(), |i: int| child_view(list@[i])),
                        extra == Seq::new(
                            all.len(),
                            |i: int| child_todo(start.at, all[all.len() - 1 - i]),
                        ),
                        self@ == (State { ahead: base + extra.take(n - k), ..start }),
                    decreases k,
                {
                    k -= 1;
                    let ghost had = self.ahead@;
                    let todo = match &list[k] {
                        Ok(p) => Todo::Visit(p.clone()),
                        Err(e) => Todo::Note(self.at.clone(), e.clone()),
                    };
                    assert(all[k as int] == child_view(list@[k as int]));
                    assert(todo@ == extra[n - 1 - k]);
                    self.ahead.push(todo);
                    assert(todos(self.ahead@) =~= todos(had).push(todo@));
                    assert(extra.take(n - k) =~= extra.take(n - k - 1).push(extra[n - 1 - k]));
                    assert(todos(self.ahead@) =~= base + extra.take(n - k));
                }
                assert(extra.take(n) =~= extra);
                self.turn()
            },
        }
    }

    /// Told what came of unlinking.
    pub fn on_unlink(&mut self, error: Option<String>) -> (r: Action)
        ensures
            (final(self)@, r@) == after_unlink(old(self)@, text::opt_text(error)),
    {
        match error {
            Some(e) => self.fail(e.as_str()),
            None => {
                self.report.bytes_freed = self.report.bytes_freed.saturating_add(self.frees);
                self.report.files = self.report.files.saturating_add(1);
            },
        }
        self.turn()
    }

    /// Told what came of removing a directory.
    pub fn on_remove_dir(&mut self, error: Option<String>) -> (r: Action)
        ensures
            (final(self)@, r@) == after_remove_dir(old(self)@, text::opt_text(error)),
    {
        if let Some(e) = error {
            self.fail(e.as_str());
        }
        self.turn()
    }
}

// ------------------------------------------------------------------------ laws

/// What is not a directory is unlinked, whatever it may lead to: a link is
/// never followed.
pub proof fn law_links_are_not_followed(s: State, m: Metadata)
    requires
        !m.is_dir,
    ensures
        after_stat(s, Ok(m)).1 == ActionModel::Unlink(s.at),
{
}

/// A directory on another filesystem than the top of the tree is told of,
/// and neither listed nor removed.
pub proof fn law_other_filesystems_are_left_alone(s: State, m: Metadata)
    requires
        m.is_dir,
        s.top_dev is Some,
        m.dev != s.top_dev->0,
    ensures
        after_stat(s, Ok(m)) == turned(failed(s, BOUNDARY@)),
        after_stat(s, Ok(m)).1 != ActionModel::List(s.at),
{
    let f = failed(s, BOUNDARY@);
    assert(f.top_dev == s.top_dev);
    assert(State { top_dev: Some(s.top_dev->0), ..s } =~= s);
    lemma_turned_never_lists(f, s.at);
}

proof fn lemma_turned_never_lists(s: State, p: Seq<char>)
    ensures
        turned(s).1 != ActionModel::List(p),
    decreases s.ahead.len(),
{
    if s.ahead.len() > 0 {
        match s.ahead.last() {
            TodoModel::Note(q, e) => {
                lemma_turned_never_lists(
                    State { ahead: s.ahead.drop_last(), errors: s.errors.push((q, e)), ..s },
                    p,
                );
            },
            _ => {},
        }
    }
}

/// A tree on one filesystem. What is not a directory is a leaf.
pub enum Tree {
    Leaf { path: Seq<char>, blocks: u64 },
    Branch { path: Seq<char>, children: Seq<Tree> },
}

impl Tree {
    pub open spec fn path(self) -> Seq<char> {
        match self {
            Tree::Leaf { path, blocks: _ } => path,
            Tree::Branch { path, children: _ } => path,
        }
    }

    /// Its paths from the inside out: a directory comes after all that is in
    /// it.
    pub open spec fn inside_out(self) -> Seq<Seq<char>>
        decreases self,
    {
        match self {
            Tree::Leaf { path, blocks: _ } => seq![path],
            Tree::Branch { path, children } => inside_out_from(children, 0).push(path),
        }
    }

    /// How many leaves it has.
    pub open spec fn leaves(self) -> nat
        decreases self,
    {
        match self {
            Tree::Leaf { .. } => 1,
            Tree::Branch { path: _, children } => leaves_from(children, 0),
        }
    }

    /// What its leaves take up.
    pub open spec fn bytes(self) -> nat
        decreases self,
    {
        match self {
            Tree::Leaf { path: _, blocks } => bytes_of(blocks) as nat,
            Tree::Branch { path: _, children } => bytes_from(children, 0),
        }
    }

    /// How many steps it takes to delete it.
    pub open spec fn steps(self) -> nat
        decreases self,
    {
        match self {
            Tree::Leaf { .. } => 2,
            Tree::Branch { path: _, children } => steps_from(children, 0) + 3,
        }
    }
}

pub open spec fn inside_out_from(list: Seq<Tree>, i: int) -> Seq<Seq<char>>
    decreases list, list.len() - i,
{
    if i < 0 || i >= list.len() {
        Seq::empty()
    } else {
        list[i].inside_out() + inside_out_from(list, i + 1)
    }
}

pub open spec fn leaves_from(list: Seq<Tree>, i: int) -> nat
    decreases list, list.len() - i,
{
    if i < 0 || i >= list.len() {
        0
    } else {
        list[i].leaves() + leaves_from(list, i + 1)
    }
}

pub open spec fn bytes_from(list: Seq<Tree>, i: int) -> nat
    decreases list, list.len() - i,
{
    if i < 0 || i >= list.len() {
        0
    } else {
        list[i].bytes() + bytes_from(list, i + 1)
    }
}

pub open spec fn steps_from(list: Seq<Tree>, i: int) -> nat
    decreases list, list.len() - i,
{
    if i < 0 || i >= list.len() {
        0
    } else {
        list[i].steps() + steps_from(list, i + 1)
    }
}

/// What a disk says of a path.
pub enum Node {
    Leaf { blocks: u64 },
    Branch { children: Seq<Seq<char>> },
}

/// Whether the disk holds the tree.
pub open spec fn holds(disk: Map<Seq<char>, Node>, t: Tree) -> bool
    decreases t,
{
    &&& disk.dom().contains(t.path())
    &&& match t {
        Tree::Leaf { path, blocks } => disk[path] == (Node::Leaf { blocks }),
        Tree::Branch { path, children } => {
            &&& disk[path] == (Node::Branch {
                children: Seq::new(children.len(), |i: int| children[i].path()),
            })
            &&& forall|i: int| 0 <= i < children.len() ==> holds(disk, #[trigger] children[i])
        },
    }
}

/// A deletion under way, what it asks for next, and the paths that are gone.
#[verifier::ext_equal]
pub struct Talk {
    pub state: State,
    pub next: ActionModel,
    pub gone: Seq<Seq<char>>,
}

pub open spec fn talk(turn: (State, ActionModel), gone: Seq<Seq<char>>) -> Talk {
    Talk { state: turn.0, next: turn.1, gone }
}

/// One step on a disk that does what it is asked to and says what is there.
pub open spec fn step(disk: Map<Seq<char>, Node>, dev: u64, k: Talk) -> Talk {
    match k.next {
        ActionModel::Stat(p) => talk(
            after_stat(
                k.state,
                match disk[p] {
                    Node::Leaf { blocks } => Ok(Metadata { is_dir: false, dev, blocks }),
                    Node::Branch { .. } => Ok(Metadata { is_dir: true, dev, blocks: 0 }),
                },
            ),
            k.gone,
        ),
        ActionModel::List(p) => talk(
            after_list(
                k.state,
                match disk[p] {
                    Node::Leaf { .. } => Err(Seq::empty()),
                    Node::Branch { children } => Ok(
                        Seq::new(children.len(), |i: int| Ok(children[i])),
                    ),
                },
            ),
            k.gone,
        ),
        ActionModel::Unlink(p) => talk(after_unlink(k.state, None), k.gone.push(p)),
        ActionModel::RemoveDir(p) => talk(after_remove_dir(k.state, None), k.gone.push(p)),
        ActionModel::Done => k,
    }
}

/// So many steps.
pub open spec fn steps_on(disk: Map<Seq<char>, Node>, dev: u64, k: Talk, n: nat) -> Talk
    decreases n,
{
    if n == 0 {
        k
    } else {
        steps_on(disk, dev, step(disk, dev, k), (n - 1) as nat)
    }
}

proof fn lemma_steps_split(disk: Map<Seq<char>, Node>, dev: u64, k: Talk, a: nat, b: nat)
    ensures
        steps_on(disk, dev, k, a + b) == steps_on(disk, dev, steps_on(disk, dev, k, a), b),
    decreases a,
{
    if a > 0 {
        lemma_steps_split(disk, dev, step(disk, dev, k), (a - 1) as nat, b);
    }
}

/// The state once the tree is gone.
pub open spec fn tallied(s: State, t: Tree, dev: u64) -> State {
    State {
        at: t.path(),
        top_dev: Some(dev),
        frees: match t {
            Tree::Leaf { path: _, blocks } => bytes_of(blocks),
            Tree::Branch { .. } => 0,
        },
        bytes_freed: capped(s.bytes_freed + t.bytes()),
        files: capped(s.files + t.leaves()),
        ..s
    }
}

/// What is ahead while the children from `i` on are.
pub open spec fn ahead_from(base: Seq<TodoModel>, p: Seq<char>, list: Seq<Tree>, i: int) -> Seq<
    TodoModel,
> {
    base.push(TodoModel::Sweep(p)) + Seq::new(
        (list.len() - i) as nat,
        |j: int| TodoModel::Visit(list[list.len() - 1 - j].path()),
    )
}

proof fn lemma_tree_goes(disk: Map<Seq<char>, Node>, dev: u64, t: Tree, s: State, gone: Seq<Seq<char>>)
    requires
        holds(disk, t),
        s.at == t.path(),
        s.top_dev is None || s.top_dev == Some(dev),
    ensures
        steps_on(disk, dev, talk((s, ActionModel::Stat(s.at)), gone), t.steps()) == talk(
            turned(tallied(s, t, dev)),
            gone + t.inside_out(),
        ),
    decreases t, 1int, 0int,
{
    let k0 = talk((s, ActionModel::Stat(s.at)), gone);
    match t {
        Tree::Leaf { path, blocks } => {
            let k1 = step(disk, dev, k0);
            let k2 = step(disk, dev, k1);
            assert(k1.next == ActionModel::Unlink(path));
            assert(gone.push(path) =~= gone + t.inside_out());
            assert(k2.state == turned(tallied(s, t, dev)).0);
            assert(steps_on(disk, dev, k2, 0) == k2);
            assert(steps_on(disk, dev, k1, 1) == k2);
            assert(steps_on(disk, dev, k0, 2) == k2);
        },
        Tree::Branch { path, children } => {
            let k1 = step(disk, dev, k0);
            let s1 = State { top_dev: Some(dev), ..s };
            assert(k1 == talk((s1, ActionModel::List(path)), gone));
            let k2 = step(disk, dev, k1);
            let named = Seq::new(children.len(), |i: int| children[i].path());
            let listed: Seq<Result<Seq<char>, Seq<char>>> = Seq::new(
                named.len(),
                |i: int| Ok(named[i]),
            );
            let s2 = State { ahead: ahead_from(s.ahead, path, children, 0), ..s1 };
            assert(s1.ahead.push(TodoModel::Sweep(path)) + Seq::new(
                listed.len(),
                |i: int| child_todo(path, listed[listed.len() - 1 - i]),
            ) =~= s2.ahead);
            assert(k2 == talk(turned(s2), gone));
            lemma_children_go(disk, dev, path, children, 0, s.ahead, s2, gone);
            let n = steps_from(children, 0);
            let bytes = capped(s.bytes_freed + bytes_from(children, 0));
            let files = capped(s.files + leaves_from(children, 0));
            let k3 = steps_on(disk, dev, k2, n);
            let gone3 = gone + inside_out_from(children, 0);
            let s3 = State {
                ahead: s.ahead,
                at: path,
                frees: 0,
                bytes_freed: bytes,
                files,
                ..s1
            };
            assert(k3 == talk((s3, ActionModel::RemoveDir(path)), gone3));
            let k4 = step(disk, dev, k3);
            assert(s3 == tallied(s, t, dev));
            assert(gone3.push(path) =~= gone + t.inside_out());
            lemma_steps_split(disk, dev, k2, n, 1);
            assert(steps_on(disk, dev, k4, 0) == k4);
            assert(steps_on(disk, dev, k3, 1) == k4);
            assert(steps_on(disk, dev, k1, n + 2) == steps_on(disk, dev, k2, n + 1));
            assert(steps_on(disk, dev, k0, n + 3) == steps_on(disk, dev, k1, n + 2));
        },
    }
}

proof fn lemma_children_go(
    disk: Map<Seq<char>, Node>,
    dev: u64,
    p: Seq<char>,
    list: Seq<Tree>,
    i: int,
    base: Seq<TodoModel>,
    s: State,
    gone: Seq<Seq<char>>,
)
    requires
        0 <= i <= list.len(),
        forall|j: int| 0 <= j < list.len() ==> holds(disk, #[trigger] list[j]),
        s.ahead == ahead_from(base, p, list, i),
        s.top_dev == Some(dev),
    ensures
        steps_on(disk, dev, talk(turned(s), gone), steps_from(list, i)) == talk(
            (
                State {
                    ahead: base,
                    at: p,
                    frees: 0,
                    bytes_freed: capped(s.bytes_freed + bytes_from(list, i)),
                    files: capped(s.files + leaves_from(list, i)),
                    ..s
                },
                ActionModel::RemoveDir(p),
            ),
            gone + inside_out_from(list, i),
        ),
    decreases list, 0int, list.len() - i,
{
    if i == list.len() {
        assert(s.ahead =~= base.push(TodoModel::Sweep(p)));
        assert(s.ahead.drop_last() =~= base);
        assert(gone + inside_out_from(list, i) =~= gone);
    } else {
        let t = list[i];
        let rest = ahead_from(base, p, list, i + 1);
        assert(s.ahead.last() == TodoModel::Visit(t.path()));
        assert(s.ahead.drop_last() =~= rest);
        let s1 = State { ahead: rest, at: t.path(), ..s };
        assert(turned(s) == (s1, ActionModel::Stat(t.path())));
        lemma_tree_goes(disk, dev, t, s1, gone);
        let s2 = tallied(s1, t, dev);
        let gone2 = gone + t.inside_out();
        lemma_children_go(disk, dev, p, list, i + 1, base, s2, gone2);
        lemma_steps_split(
            disk,
            dev,
            talk(turned(s), gone),
            t.steps(),
            steps_from(list, i + 1),
        );
        assert(gone2 + inside_out_from(list, i + 1) =~= gone + inside_out_from(list, i));
    }
}

/// On a disk that does what it is asked to, the whole tree goes and nothing
/// else: every path in it exactly as often as it is there, a directory after
/// all that was in it, and the report counts every leaf and what it took up.
pub proof fn law_the_whole_tree_goes(disk: Map<Seq<char>, Node>, dev: u64, t: Tree)
    requires
        holds(disk, t),
    ensures
        ({
            let start = State {
                ahead: Seq::empty(),
                at: t.path(),
                top_dev: None,
                frees: 0,
                bytes_freed: 0,
                files: 0,
                errors: Seq::empty(),
            };
            let end = steps_on(
                disk,
                dev,
                talk((start, ActionModel::Stat(t.path())), Seq::empty()),
                t.steps(),
            );
            &&& end.next == ActionModel::Done
            &&& end.gone == t.inside_out()
            &&& end.state.errors.len() == 0
            &&& end.state.files == capped(t.leaves() as int)
            &&& end.state.bytes_freed == capped(t.bytes() as int)
        }),
{
    let start = State {
        ahead: Seq::empty(),
        at: t.path(),
        top_dev: None,
        frees: 0,
        bytes_freed: 0,
        files: 0,
        errors: Seq::empty(),
    };
    lemma_tree_goes(disk, dev, t, start, Seq::empty());
    assert(Seq::<Seq<char>>::empty() + t.inside_out() =~= t.inside_out());
}

proof fn lemma_turning_frees_nothing(s: State)
    ensures
        turned(s).0.bytes_freed == s.bytes_freed,
        turned(s).0.files == s.files,
        turned(s).0.errors.len() >= s.errors.len(),
        turned(s).0.errors.take(s.errors.len() as int) == s.errors,
    decreases s.ahead.len(),
{
    assert(s.errors.take(s.errors.len() as int) =~= s.errors);
    if s.ahead.len() > 0 {
        if let TodoModel::Note(p, e) = s.ahead.last() {
            let next = State {
                ahead: s.ahead.drop_last(),
                errors: s.errors.push((p, e)),
                ..s
            };
            lemma_turning_frees_nothing(next);
            assert(turned(next).0.errors.take(s.errors.len() as int) =~= next.errors.take(
                s.errors.len() as int,
            ));
            assert(next.errors.take(s.errors.len() as int) =~= s.errors);
        }
    }
}

/// A file that is unlinked frees its blocks of 512 bytes and counts as one;
/// one that cannot be is told of with its path and the reason, and frees
/// nothing.
pub proof fn law_unlinking_frees_the_blocks(s: State, m: Metadata, why: Seq<char>)
    requires
        !m.is_dir,
        s.bytes_freed + m.blocks * 512 <= u64::MAX,
        s.files < u64::MAX,
    ensures
        ({
            let (mid, ask) = after_stat(s, Ok(m));
            let gone = after_unlink(mid, None).0;
            let kept = after_unlink(mid, Some(why)).0;
            &&& ask == ActionModel::Unlink(s.at)
            &&& gone.bytes_freed == s.bytes_freed + m.blocks * 512
            &&& gone.files == s.files + 1
            &&& kept.bytes_freed == s.bytes_freed
            &&& kept.files == s.files
            &&& kept.errors.contains((s.at, why))
        }),
{
    let (mid, ask) = after_stat(s, Ok(m));
    let more = State {
        bytes_freed: capped_sum(mid.bytes_freed, mid.frees),
        files: capped_sum(mid.files, 1),
        ..mid
    };
    lemma_turning_frees_nothing(more);
    let told = failed(mid, why);
    lemma_turning_frees_nothing(told);
    let n = mid.errors.len() as int;
    let kept = turned(told).0;
    assert(kept.errors.take(n + 1)[n] == told.errors[n]);
    assert(kept.errors[n] == (s.at, why));
}

/// Whatever cannot be looked at, listed or removed is told of with its path
/// and the reason.
pub proof fn law_what_fails_is_told(s: State, why: Seq<char>)
    ensures
        after_stat(s, Err(why)).0.errors.contains((s.at, why)),
        after_list(s, Err(why)).0.errors.contains((s.at, why)),
        after_remove_dir(s, Some(why)).0.errors.contains((s.at, why)),
{
    let told = failed(s, why);
    lemma_turning_frees_nothing(told);
    let n = s.errors.len() as int;
    let after = turned(told).0;
    assert(after.errors.take(n + 1)[n] == told.errors[n]);
    assert(after.errors[n] == (s.at, why));
}

/// What is counted in the end: every block has 512 bytes.
pub proof fn law_blocks_have_512_bytes(blocks: u64)
    ensures
        blocks * 512 <= u64::MAX ==> bytes_of(blocks) == blocks * 512,
        blocks * 512 > u64::MAX ==> bytes_of(blocks) == u64::MAX,
{
}

} // verus!

use vstd::prelude::*;

use crate::render::{detail_lines, details, lines_view, render, tree_lines, Annotations};
use crate::text::{decimal, parse_index, parse_usize, push_all, push_decimal, split_words, views_of, words};
use crate::tree::{copy_name, holds, DirTree, File, TreeError};
use crate::view::{ScrollableArea, Vector2};

verus! {

/// A command that names a directory, and so can wait for a query to be made unambiguous.
#[derive(Clone, Copy, PartialEq, Eq, Structural, Debug)]
pub enum CommandKind {
    Enter,
    Open,
    Close,
    Move,
    Copy,
    Rename,
    Remove,
}

/// What the command line waits for.
pub enum Pending {
    /// A full command.
    Idle,
    /// An index into the ambiguous candidates, or `cancel`; then `command` runs on the pick,
    /// with its second argument `arg`.
    Disambiguation { command: CommandKind, arg: Vec<char> },
    /// `yes` or `no` to the removal of a directory.
    Confirmation { target: usize },
}

/// The message that a step leaves on the message line.
#[derive(Clone, Copy, PartialEq, Eq, Structural, Debug)]
pub enum Notice {
    /// No message: the title shows.
    Title,
    EnterCommand,
    InvalidCommand,
    UsageEnter,
    UsageOpen,
    UsageClose,
    UsageMove,
    UsageCopy,
    UsageRename,
    UsageNew,
    UsageRemove,
    MoveMissing,
    CopyMissing,
    AlreadyExists,
    NameTaken,
    Ambiguous,
    DoesNotExist,
    CannotRenameRoot,
    CannotRemoveRoot,
    ConfirmRemoval,
    AskYesNo,
    AskIndex,
    /// The filesystem refused the operation; nothing changed.
    Failed,
}

/// A filesystem operation for the caller to carry out. A path is the names from the root of
/// the tree down.
#[derive(Clone, Copy, PartialEq, Eq, Structural, Debug)]
pub enum FsKind {
    CreateFile,
    CreateDir,
    Rename,
    Copy,
    RemoveFile,
    RemoveDirAll,
}

pub struct FsAction {
    pub kind: FsKind,
    pub from: Vec<Vec<char>>,
    /// The destination of a rename or a copy; empty otherwise.
    pub to: Vec<Vec<char>>,
}

/// The change to the tree that mirrors a filesystem operation once it has succeeded.
pub enum Change {
    NewFile { dir: usize, name: Vec<char> },
    NewDir { dir: usize, name: Vec<char> },
    RenameFile { dir: usize, from: Vec<char>, to: Vec<char> },
    MoveFile { from_dir: usize, name: Vec<char>, to_dir: usize, new_name: Vec<char> },
    CopyFile { to_dir: usize, new_name: Vec<char> },
    RenameDir { id: usize, name: Vec<char> },
    RemoveFile { dir: usize, name: Vec<char> },
    RemoveDir { id: usize },
}

/// What the caller does after a command.
pub enum Step {
    /// Nothing for the filesystem: show the notice.
    Done(Notice),
    /// Carry out the operation, then hand the change to `apply` if it succeeded, or call
    /// `fail` if it did not.
    Perform(FsAction, Change),
}

/// When a file or directory was last changed, and its size, as the filesystem reports them.
#[derive(Clone, Copy, PartialEq, Eq, Structural, Debug)]
pub struct Stamp {
    pub modified: i64,
    pub size: u64,
}

/// The browser: the mirrored tree, how its view marks directories, what the command line waits
/// for, and the two scrolled views.
pub struct StateManager {
    pub tree: DirTree,
    pub marks: Annotations,
    pub pending: Pending,
    /// The view of the directory tree.
    pub tree_view: ScrollableArea,
    /// The view of the current directory's entries.
    pub dir_contents: ScrollableArea,
}

pub open spec fn all_below(s: Seq<usize>, n: int) -> bool {
    forall|i: int| 0 <= i < s.len() ==> #[trigger] s[i] < n
}

impl StateManager {
    /// The browser's invariant: a well-formed tree, every mark naming one of its directories, an
    /// ambiguity pending exactly while candidates are marked, a removal exactly while a target
    /// is marked.
    pub open spec fn wf(self) -> bool {
        let n = self.tree.nodes@.len() as int;
        &&& self.tree.wf()
        &&& self.tree_view.wf()
        &&& self.dir_contents.wf()
        &&& self.marks.current < n
        &&& all_below(self.marks.closed@, n)
        &&& all_below(self.marks.ambiguous@, n)
        &&& match self.pending {
            Pending::Idle => self.marks.ambiguous@.len() == 0 && self.marks.to_remove is None,
            Pending::Disambiguation { .. } => self.marks.ambiguous@.len() > 0
                && self.marks.to_remove is None,
            Pending::Confirmation { target } => self.marks.ambiguous@.len() == 0
                && self.marks.to_remove == Some(target) && target < n,
        }
    }

    /// Whether both views show what the tree and the marks give.
    pub open spec fn fresh(self) -> bool {
        &&& lines_view(self.tree_view.contents@) == render(self.tree, self.marks, 0, 0).0
        &&& lines_view(self.dir_contents.contents@) == details(
            self.tree,
            self.marks.current as int,
        )
    }

    /// A browser over `tree` on a terminal `term_size` large (columns, rows): the tree view on
    /// the left half below the two title rows, the detail view on the right, the current
    /// directory the root, nothing pending, both views filled.
    pub fn init(term_size: Vector2, tree: DirTree) -> (r: StateManager)
        requires
            tree.wf(),
            term_size.x >= 10,
            term_size.y >= 7,
        ensures
            r.wf(),
            r.fresh(),
            r.tree == tree,
            r.marks.current == 0,
            r.marks.closed@.len() == 0,
            r.pending is Idle,
            r.tree_view.screen_offset == (Vector2 { x: 0, y: 2 }),
            r.tree_view.size == (Vector2 { x: term_size.x / 2, y: (term_size.y - 4) as usize }),
            r.dir_contents.screen_offset == (Vector2 { x: (term_size.x / 2 + 1) as usize, y: 2 }),
            r.dir_contents.size == (Vector2 {
                x: (term_size.x - term_size.x / 2 - 1) as usize,
                y: (term_size.y - 4) as usize,
            }),
            r.tree_view.curr_pos == (Vector2 { x: 0, y: 0 }),
            r.dir_contents.curr_pos == (Vector2 { x: 0, y: 0 }),
    {
        let line_x = term_size.x / 2;
        let tree_view = ScrollableArea::new(
            Vector2 { x: 0, y: 2 },
            Vector2 { x: line_x, y: term_size.y - 4 },
        );
        let dir_contents = ScrollableArea::new(
            Vector2 { x: line_x + 1, y: 2 },
            Vector2 { x: term_size.x - line_x - 1, y: term_size.y - 4 },
        );
        let marks = Annotations {
            current: 0,
            to_remove: None,
            ambiguous: Vec::new(),
            closed: Vec::new(),
        };
        let mut r = StateManager { tree, marks, pending: Pending::Idle, tree_view, dir_contents };
        r.refresh_area();
        r
    }

    /// Rebuilds both views from the tree and the marks, pulling each view's scroll offset back
    /// where its content shrank.
    pub fn refresh_area(&mut self)
        requires
            old(self).wf(),
        ensures
            final(self).wf(),
            final(self).fresh(),
            final(self).tree == old(self).tree,
            final(self).marks == old(self).marks,
            final(self).pending == old(self).pending,
            final(self).tree_view.size == old(self).tree_view.size,
            final(self).tree_view.screen_offset == old(self).tree_view.screen_offset,
            final(self).dir_contents.size == old(self).dir_contents.size,
            final(self).dir_contents.screen_offset == old(self).dir_contents.screen_offset,
            final(self).tree_view.curr_pos == old(self).tree_view.clamped(
                final(self).tree_view.contents@,
            ),
            final(self).dir_contents.curr_pos == old(self).dir_contents.clamped(
                final(self).dir_contents.contents@,
            ),
    {
        let t = tree_lines(&self.tree, &self.marks);
        self.tree_view.set_contents(t);
        let d = detail_lines(&self.tree, self.marks.current);
        self.dir_contents.set_contents(d);
    }
}

/// Position of the last '.' of `s`, or -1.
pub open spec fn last_dot(s: Seq<char>) -> int
    decreases s.len(),
{
    if s.len() == 0 {
        -1
    } else if s.last() == '.' {
        s.len() - 1
    } else {
        last_dot(s.drop_last())
    }
}

proof fn lemma_last_dot_bounds(s: Seq<char>)
    ensures
        -1 <= last_dot(s) < s.len(),
        last_dot(s) >= 0 ==> s[last_dot(s)] == '.',
    decreases s.len(),
{
    if s.len() > 0 && s.last() != '.' {
        lemma_last_dot_bounds(s.drop_last());
    }
}

/// The `i`-th name tried for a file called `name` arriving in a directory: the name itself,
/// then its stem with `_1`, `_2`, ... before the extension. A name whose only dot leads it has
/// no extension.
pub open spec fn candidate(name: Seq<char>, i: nat) -> Seq<char> {
    let p = last_dot(name);
    if i == 0 {
        name
    } else if p <= 0 {
        name + "_"@ + decimal(i)
    } else {
        name.subrange(0, p) + "_"@ + decimal(i) + name.subrange(p, name.len() as int)
    }
}

/// The `i`-th name tried for `name`.
fn candidate_name(name: &Vec<char>, i: u64) -> (r: Vec<char>)
    ensures
        r@ == candidate(name@, i as nat),
{
    if i == 0 {
        return copy_name(name);
    }
    let mut p: usize = name.len();
    let mut found = false;
    proof {
        lemma_last_dot_bounds(name@);
        reveal_strlit("_");
        assert(name@.subrange(0, name.len() as int) =~= name@);
    }
    while p > 0 && !found
        invariant
            p <= name.len(),
            found ==> p < name.len() && last_dot(name@) == p,
            !found ==> last_dot(name@) == last_dot(name@.subrange(0, p as int)),
        decreases p + if found { 0int } else { 1int },
    {
        let ghost pre = name@.subrange(0, p as int);
        assert(pre.drop_last() =~= name@.subrange(0, p - 1));
        if name[p - 1] == '.' {
            p = p - 1;
            found = true;
        } else {
            p = p - 1;
        }
    }
    if !found {
        assert(name@.subrange(0, 0) =~= Seq::<char>::empty());
    }
    let mut r: Vec<char> = Vec::new();
    if found && p > 0 {
        let mut k: usize = 0;
        while k < p
            invariant
                k <= p < name.len(),
                r@ == name@.subrange(0, k as int),
            decreases p - k,
        {
            r.push(name[k]);
            assert(r@ =~= name@.subrange(0, k + 1));
            k = k + 1;
        }
        r.push('_');
        push_decimal(&mut r, i);
        let mut k: usize = p;
        let ghost base = r@;
        while k < name.len()
            invariant
                p <= k <= name.len(),
                r@ == base + name@.subrange(p as int, k as int),
            decreases name.len() - k,
        {
            r.push(name[k]);
            assert(r@ =~= base + name@.subrange(p as int, k + 1));
            k = k + 1;
        }
        assert(r@ =~= candidate(name@, i as nat));
    } else {
        push_all(&mut r, name);
        r.push('_');
        push_decimal(&mut r, i);
        assert(r@ =~= candidate(name@, i as nat));
    }
    r
}

/// `path` with `name` added at its end.
fn join(path: &Vec<Vec<char>>, name: &Vec<char>) -> (r: Vec<Vec<char>>)
    ensures
        views_of(r@) == views_of(path@).push(name@),
{
    let mut r: Vec<Vec<char>> = Vec::new();
    let mut i: usize = 0;
    while i < path.len()
        invariant
            i <= path.len(),
            views_of(r@) == views_of(path@).subrange(0, i as int),
        decreases path.len() - i,
    {
        let ghost prev = r@;
        r.push(copy_name(&path[i]));
        assert(views_of(r@) =~= views_of(prev).push(path@[i as int]@));
        assert(views_of(r@) =~= views_of(path@).subrange(0, i + 1));
        i = i + 1;
    }
    let ghost prev = r@;
    r.push(copy_name(name));
    assert(views_of(r@) =~= views_of(prev).push(name@));
    assert(views_of(path@).subrange(0, i as int) =~= views_of(path@));
    r
}

pub open spec fn action_is(a: FsAction, kind: FsKind, from: Seq<Seq<char>>, to: Seq<Seq<char>>) -> bool {
    &&& a.kind == kind
    &&& views_of(a.from@) == from
    &&& views_of(a.to@) == to
}

/// Whether `r` is the name under which a file called `name` arrives in `dir`: the first
/// candidate that `dir` does not hold, searched as far as `search_bound`.
pub open spec fn is_copy_name(t: DirTree, dir: int, name: Seq<char>, r: Seq<char>) -> bool {
    exists|i: nat|
        {
            let n = search_bound(t, dir);
            &&& i <= n
            &&& r == #[trigger] candidate(name, i)
            &&& forall|j: nat| j < i ==> t.taken(dir, #[trigger] candidate(name, j))
            &&& (!t.taken(dir, r) || (i == n && n == u64::MAX))
        }
}

proof fn lemma_decimal_injective(a: nat, b: nat)
    requires
        decimal(a) == decimal(b),
    ensures
        a == b,
    decreases a,
{
    crate::text::lemma_decimal_len(a);
    crate::text::lemma_decimal_len(b);
    if a >= 10 && b >= 10 {
        assert(decimal(a / 10) == decimal(a).drop_last());
        assert(decimal(b / 10) == decimal(b).drop_last());
        lemma_decimal_injective(a / 10, b / 10);
        assert(decimal(a).last() == crate::text::digit_char((a % 10) as nat));
        assert(decimal(b).last() == crate::text::digit_char((b % 10) as nat));
        lemma_digit_char_injective((a % 10) as nat, (b % 10) as nat);
    } else if a < 10 && b < 10 {
        assert(decimal(a)[0] == crate::text::digit_char((a % 10) as nat));
        assert(decimal(b)[0] == crate::text::digit_char((b % 10) as nat));
        lemma_digit_char_injective((a % 10) as nat, (b % 10) as nat);
    }
}

proof fn lemma_digit_char_injective(x: nat, y: nat)
    requires
        x < 10,
        y < 10,
        crate::text::digit_char(x) == crate::text::digit_char(y),
    ensures
        x == y,
{
}

proof fn lemma_candidate_injective(name: Seq<char>, i: nat, j: nat)
    requires
        candidate(name, i) == candidate(name, j),
    ensures
        i == j,
{
    reveal_strlit("_");
    lemma_last_dot_bounds(name);
    let p = last_dot(name);
    if i > 0 && j > 0 {
        let di = decimal(i);
        let dj = decimal(j);
        assert(di.len() == dj.len()) by {
            assert(candidate(name, i).len() == name.len() + 1 + di.len());
            assert(candidate(name, j).len() == name.len() + 1 + dj.len());
        }
        let start = if p <= 0 { name.len() as int + 1 } else { p + 1 };
        assert(candidate(name, i).subrange(start, start + di.len()) =~= di);
        assert(candidate(name, j).subrange(start, start + dj.len()) =~= dj);
        lemma_decimal_injective(i, j);
    } else if i > 0 {
        crate::text::lemma_decimal_len(i);
        assert(candidate(name, i).len() > candidate(name, j).len());
    } else if j > 0 {
        crate::text::lemma_decimal_len(j);
        assert(candidate(name, j).len() > candidate(name, i).len());
    }
}

/// At most as many candidates are taken in a directory as it has entries.
proof fn lemma_taken_candidates(t: DirTree, dir: int, name: Seq<char>, m: nat)
    requires
        0 <= dir < t.nodes@.len(),
        forall|j: nat| j < m ==> t.taken(dir, #[trigger] candidate(name, j)),
    ensures
        m <= t.nodes@[dir].files@.len() + t.nodes@[dir].directories@.len(),
{
    broadcast use vstd::seq_lib::seq_to_set_is_finite;
    let cs = Seq::new(m, |j: int| candidate(name, j as nat));
    assert(cs.no_duplicates()) by {
        assert forall|a: int, b: int| 0 <= a < cs.len() && 0 <= b < cs.len() && a != b implies cs[a] != cs[b] by {
            if cs[a] == cs[b] {
                lemma_candidate_injective(name, a as nat, b as nat);
            }
        }
    }
    cs.unique_seq_to_set();
    let fs = t.file_names(dir).to_set();
    let ds = t.dir_names(dir).to_set();
    assert(cs.to_set().subset_of(fs.union(ds))) by {
        assert forall|x: Seq<char>| cs.to_set().contains(x) implies fs.union(ds).contains(x) by {
            let k = choose|k: int| 0 <= k < cs.len() && cs[k] == x;
            assert(t.taken(dir, candidate(name, k as nat)));
        }
    }
    vstd::set_lib::lemma_len_union(fs, ds);
    vstd::set_lib::lemma_len_subset(cs.to_set(), fs.union(ds));
    t.file_names(dir).lemma_cardinality_of_set();
    t.dir_names(dir).lemma_cardinality_of_set();
}

/// How far the search for a free name goes in a directory: one past its number of entries,
/// where that fits.
pub open spec fn search_bound(t: DirTree, dir: int) -> nat {
    let a = t.nodes@[dir].files@.len();
    let b = t.nodes@[dir].directories@.len();
    if a + b + 1 <= u64::MAX {
        (a + b + 1) as nat
    } else {
        u64::MAX as nat
    }
}

impl StateManager {
    /// The name under which a file called `name` arrives in directory `dir`: the first
    /// candidate that `dir` does not hold, searched as far as `dir` has entries and one more.
    pub fn get_copy_path(&self, dir: usize, name: &Vec<char>) -> (r: Vec<char>)
        requires
            self.tree.wf(),
            dir < self.tree.nodes@.len(),
        ensures
            is_copy_name(self.tree, dir as int, name@, r@),
    {
        self.copy_name_search(dir, name)
    }

    fn copy_name_search(&self, dir: usize, name: &Vec<char>) -> (r: Vec<char>)
        requires
            self.tree.wf(),
            dir < self.tree.nodes@.len(),
        ensures
            exists|i: nat|
                {
                    let n = search_bound(self.tree, dir as int);
                    &&& i <= n
                    &&& r@ == #[trigger] candidate(name@, i)
                    &&& forall|j: nat| j < i ==> self.tree.taken(dir as int, #[trigger] candidate(name@, j))
                    &&& (!self.tree.taken(dir as int, r@) || (i == n && n == u64::MAX))
                },
    {
        let a = self.tree.nodes[dir].files.len() as u64;
        let b = self.tree.nodes[dir].directories.len() as u64;
        let n: u64 = if b < u64::MAX && a <= u64::MAX - 1 - b { a + b + 1 } else { u64::MAX };
        let mut i: u64 = 0;
        proof {
            lemma_taken_candidates(self.tree, dir as int, name@, 0);
        }
        loop
            invariant
                self.tree.wf(),
                dir < self.tree.nodes@.len(),
                n == search_bound(self.tree, dir as int),
                i <= n,
                forall|j: nat| j < i ==> self.tree.taken(dir as int, #[trigger] candidate(name@, j)),
            decreases n - i,
        {
            let c = candidate_name(name, i);
            if i == n || !self.tree.name_taken(dir, &c) {
                proof {
                    if i == n && self.tree.taken(dir as int, c@) && n < u64::MAX {
                        lemma_taken_candidates(self.tree, dir as int, name@, (i + 1) as nat);
                    }
                }
                return c;
            }
            i = i + 1;
        }
    }
}

/// What running `kind` on directory `dir`, with second argument `arg`, does: from `o` to `f`,
/// with `step` as the result. None of it changes the tree; what needs the filesystem comes
/// back as an operation and the change that mirrors it.
pub open spec fn run_post(
    o: StateManager,
    f: StateManager,
    kind: CommandKind,
    dir: int,
    arg: Seq<char>,
    step: Step,
) -> bool {
    let cur = o.marks.current as int;
    let t = o.tree;
    let closed = o.marks.closed@;
    let same_marks = f.marks.current == o.marks.current && f.marks.closed@ == closed;
    let idle = f.pending is Idle && f.marks.to_remove is None;
    &&& f.tree == o.tree
    &&& f.marks.ambiguous@.len() == 0
    &&& match kind {
        CommandKind::Enter => f.marks.current == dir && f.marks.closed@ == closed && idle && step
            == Step::Done(Notice::Title),
        CommandKind::Close => {
            &&& f.marks.closed@ == if closed.contains(dir as usize) {
                closed
            } else {
                closed.push(dir as usize)
            }
            &&& f.marks.current == if t.within(dir, cur) {
                dir
            } else {
                cur
            }
            &&& idle
            &&& step == Step::Done(Notice::Title)
        },
        CommandKind::Open => {
            &&& f.marks.current == cur
            &&& if closed.contains(dir as usize) {
                exists|k: int|
                    0 <= k < closed.len() && closed[k] == dir && (forall|j: int|
                        0 <= j < k ==> closed[j] != dir) && f.marks.closed@ == #[trigger] closed.remove(
                        k,
                    )
            } else {
                f.marks.closed@ == closed
            }
            &&& idle
            &&& step == Step::Done(Notice::Title)
        },
        CommandKind::Move | CommandKind::Copy => {
            &&& same_marks
            &&& idle
            &&& if !t.file_names(cur).contains(arg) {
                step == Step::Done(
                    if kind == CommandKind::Move {
                        Notice::MoveMissing
                    } else {
                        Notice::CopyMissing
                    },
                )
            } else {
                step matches Step::Perform(a, c) && {
                    let new_name = match c {
                        Change::MoveFile { new_name, .. } => new_name@,
                        Change::CopyFile { new_name, .. } => new_name@,
                        _ => Seq::empty(),
                    };
                    &&& is_copy_name(t, dir, arg, new_name)
                    &&& action_is(
                        a,
                        if kind == CommandKind::Move {
                            FsKind::Rename
                        } else {
                            FsKind::Copy
                        },
                        t.path(cur).push(arg),
                        t.path(dir).push(new_name),
                    )
                    &&& if kind == CommandKind::Move {
                        (c matches Change::MoveFile { from_dir, name, to_dir, .. } && from_dir == cur
                            && name@ == arg && to_dir == dir)
                    } else {
                        (c matches Change::CopyFile { to_dir, .. } && to_dir == dir)
                    }
                }
            }
        },
        CommandKind::Rename => {
            &&& same_marks
            &&& idle
            &&& match t.nodes@[dir].parent {
                None => step == Step::Done(Notice::CannotRenameRoot),
                Some(p) => if arg != t.nodes@[dir].name@ && t.taken(p as int, arg) {
                    step == Step::Done(Notice::NameTaken)
                } else {
                    step matches Step::Perform(a, c) && (action_is(
                        a,
                        FsKind::Rename,
                        t.path(dir),
                        t.path(p as int).push(arg),
                    ) && (c matches Change::RenameDir { id, name } && id == dir && name@ == arg))
                },
            }
        },
        CommandKind::Remove => {
            &&& same_marks
            &&& match t.nodes@[dir].parent {
                None => idle && step == Step::Done(Notice::CannotRemoveRoot),
                Some(_) => f.pending == (Pending::Confirmation { target: dir as usize })
                    && f.marks.to_remove == Some(dir as usize) && step == Step::Done(
                    Notice::ConfirmRemoval,
                ),
            }
        },
    }
}

impl StateManager {
    /// Runs `kind` on directory `dir`, with second argument `arg`.
    fn run(&mut self, kind: CommandKind, dir: usize, arg: Vec<char>) -> (step: Step)
        requires
            old(self).wf(),
            old(self).pending is Idle,
            dir < old(self).tree.nodes@.len(),
        ensures
            final(self).wf(),
            run_post(*old(self), *final(self), kind, dir as int, arg@, step),
            final(self).tree_view == old(self).tree_view,
            final(self).dir_contents == old(self).dir_contents,
    {
        let cur = self.marks.current;
        match kind {
            CommandKind::Enter => {
                self.marks.current = dir;
                Step::Done(Notice::Title)
            },
            CommandKind::Close => {
                if !holds(&self.marks.closed, dir) {
                    self.marks.closed.push(dir);
                }
                if self.tree.is_within(dir, cur) {
                    self.marks.current = dir;
                }
                Step::Done(Notice::Title)
            },
            CommandKind::Open => {
                let mut k: usize = 0;
                while k < self.marks.closed.len()
                    invariant
                        k <= self.marks.closed@.len(),
                        forall|j: int| 0 <= j < k ==> self.marks.closed@[j] != dir,
                    ensures
                        k <= self.marks.closed@.len(),
                        forall|j: int| 0 <= j < k ==> self.marks.closed@[j] != dir,
                        k < self.marks.closed@.len() ==> self.marks.closed@[k as int] == dir,
                    decreases self.marks.closed@.len() - k,
                {
                    if self.marks.closed[k] == dir {
                        break;
                    }
                    k = k + 1;
                }
                let ghost before = self.marks.closed@;
                if k >= self.marks.closed.len() {
                    assert(!before.contains(dir));
                }
                if k < self.marks.closed.len() {
                    self.marks.closed.remove(k);
                    proof {
                        assert(self.marks.closed@ == before.remove(k as int));
                        assert(before[k as int] == dir);
                        assert(all_below(self.marks.closed@, self.tree.nodes@.len() as int)) by {
                            assert forall|i: int| 0 <= i < self.marks.closed@.len() implies #[trigger] self.marks.closed@[i]
                                < self.tree.nodes@.len() by {
                                if i < k {
                                    assert(self.marks.closed@[i] == before[i]);
                                } else {
                                    assert(self.marks.closed@[i] == before[i + 1]);
                                }
                            }
                        }
                    }
                }
                Step::Done(Notice::Title)
            },
            CommandKind::Move | CommandKind::Copy => {
                let is_move = match kind {
                    CommandKind::Move => true,
                    _ => false,
                };
                if self.tree.find_file(cur, &arg).is_none() {
                    return Step::Done(if is_move { Notice::MoveMissing } else { Notice::CopyMissing });
                }
                let new_name = self.get_copy_path(dir, &arg);
                let from = join(&self.tree.path_of(cur), &arg);
                let to = join(&self.tree.path_of(dir), &new_name);
                if is_move {
                    let a = FsAction { kind: FsKind::Rename, from, to };
                    Step::Perform(a, Change::MoveFile { from_dir: cur, name: arg, to_dir: dir, new_name })
                } else {
                    let a = FsAction { kind: FsKind::Copy, from, to };
                    Step::Perform(a, Change::CopyFile { to_dir: dir, new_name })
                }
            },
            CommandKind::Rename => {
                let p = match self.tree.nodes[dir].parent {
                    Some(p) => p,
                    None => {
                        return Step::Done(Notice::CannotRenameRoot);
                    },
                };
                proof {
                    assert(self.tree.node_ok(dir as int));
                }
                if !crate::text::names_equal(&arg, &self.tree.nodes[dir].name) && self.tree.name_taken(p, &arg) {
                    return Step::Done(Notice::NameTaken);
                }
                let from = self.tree.path_of(dir);
                let to = join(&self.tree.path_of(p), &arg);
                Step::Perform(FsAction { kind: FsKind::Rename, from, to }, Change::RenameDir { id: dir, name: arg })
            },
            CommandKind::Remove => {
                match self.tree.nodes[dir].parent {
                    Some(_) => {},
                    None => {
                        return Step::Done(Notice::CannotRemoveRoot);
                    },
                }
                self.pending = Pending::Confirmation { target: dir };
                self.marks.to_remove = Some(dir);
                Step::Done(Notice::ConfirmRemoval)
            },
        }
    }
}

/// What a command on the directory that `query` names does: where no directory matches, it
/// reports so; where several do, they become the candidates and the command waits for an index;
/// where one does, the command runs on it.
pub open spec fn dir_post(
    o: StateManager,
    f: StateManager,
    kind: CommandKind,
    query: Seq<char>,
    arg: Seq<char>,
    step: Step,
) -> bool {
    let cands = o.tree.resolve_segs(o.marks.closed@, crate::text::segments(query));
    if cands.len() == 0 {
        step == Step::Done(Notice::DoesNotExist) && unchanged(o, f)
    } else if cands.len() > 1 {
        &&& step == Step::Done(Notice::Ambiguous)
        &&& f.tree == o.tree
        &&& f.marks.current == o.marks.current
        &&& f.marks.closed@ == o.marks.closed@
        &&& f.marks.to_remove is None
        &&& f.marks.ambiguous@ == cands
        &&& f.pending matches Pending::Disambiguation { command, arg: a } && command == kind && a@
            == arg
    } else {
        run_post(o, f, kind, cands[0] as int, arg, step)
    }
}

/// The tree, the marks and what is pending are as they were.
pub open spec fn unchanged(o: StateManager, f: StateManager) -> bool {
    &&& f.tree == o.tree
    &&& f.marks.current == o.marks.current
    &&& f.marks.closed@ == o.marks.closed@
    &&& f.marks.ambiguous@ == o.marks.ambiguous@
    &&& f.marks.to_remove == o.marks.to_remove
    &&& f.pending == o.pending
}

impl StateManager {
    /// Runs `kind` on the directory that `query` names, or makes the command wait for an
    /// index where several match.
    fn get_dir(&mut self, kind: CommandKind, query: &Vec<char>, arg: Vec<char>) -> (step: Step)
        requires
            old(self).wf(),
            old(self).pending is Idle,
        ensures
            final(self).wf(),
            dir_post(*old(self), *final(self), kind, query@, arg@, step),
            final(self).tree_view == old(self).tree_view,
            final(self).dir_contents == old(self).dir_contents,
    {
        let cands = self.tree.resolve(&self.marks.closed, query);
        proof {
            self.tree.lemma_resolve_below(self.marks.closed@, crate::text::segments(query@));
        }
        if cands.len() == 0 {
            return Step::Done(Notice::DoesNotExist);
        }
        if cands.len() > 1 {
            self.marks.ambiguous = cands;
            self.pending = Pending::Disambiguation { command: kind, arg };
            return Step::Done(Notice::Ambiguous);
        }
        let dir = cands[0];
        self.run(kind, dir, arg)
    }
}

/// The answer to a pending removal: `yes` hands out the removal of the target, `no` drops it,
/// anything else asks again.
pub open spec fn confirm_post(o: StateManager, f: StateManager, target: int, ws: Seq<Seq<char>>, step: Step) -> bool {
    if ws == seq!["yes"@] {
        &&& step matches Step::Perform(a, c) && (action_is(a, FsKind::RemoveDirAll, o.tree.path(target), Seq::empty())
            && (c matches Change::RemoveDir { id } && id == target))
        &&& f.tree == o.tree
        &&& f.marks.current == o.marks.current
        &&& f.marks.closed@ == o.marks.closed@
        &&& f.marks.to_remove is None
        &&& f.pending is Idle
    } else if ws == seq!["no"@] {
        &&& step == Step::Done(Notice::Title)
        &&& f.tree == o.tree
        &&& f.marks.current == o.marks.current
        &&& f.marks.closed@ == o.marks.closed@
        &&& f.marks.to_remove is None
        &&& f.pending is Idle
    } else {
        step == Step::Done(Notice::AskYesNo) && unchanged(o, f)
    }
}

/// The answer to a pending ambiguity: an index of a candidate runs the waiting command on it,
/// `cancel` drops it, anything else asks again.
pub open spec fn pick_post(
    o: StateManager,
    f: StateManager,
    command: CommandKind,
    arg: Seq<char>,
    ws: Seq<Seq<char>>,
    step: Step,
) -> bool {
    let amb = o.marks.ambiguous@;
    if ws.len() == 1 && parse_index(ws[0]) is Some && (parse_index(ws[0])->0 as int) < amb.len() {
        run_post(o, f, command, amb[parse_index(ws[0])->0 as int] as int, arg, step)
    } else if ws == seq!["cancel"@] {
        &&& step == Step::Done(Notice::Title)
        &&& f.tree == o.tree
        &&& f.marks.current == o.marks.current
        &&& f.marks.closed@ == o.marks.closed@
        &&& f.marks.ambiguous@.len() == 0
        &&& f.pending is Idle
    } else {
        step == Step::Done(Notice::AskIndex) && unchanged(o, f)
    }
}

/// A full command: its first word picks it, and it needs exactly its number of words.
pub open spec fn command_post(o: StateManager, f: StateManager, ws: Seq<Seq<char>>, step: Step) -> bool {
    let cur = o.marks.current as int;
    let t = o.tree;
    let head = ws[0];
    let usage = |n: Notice| step == Step::Done(n) && unchanged(o, f);
    if head == "enter"@ {
        if ws.len() == 2 { dir_post(o, f, CommandKind::Enter, ws[1], Seq::empty(), step) } else { usage(Notice::UsageEnter) }
    } else if head == "open"@ {
        if ws.len() == 2 { dir_post(o, f, CommandKind::Open, ws[1], Seq::empty(), step) } else { usage(Notice::UsageOpen) }
    } else if head == "close"@ {
        if ws.len() == 2 { dir_post(o, f, CommandKind::Close, ws[1], Seq::empty(), step) } else { usage(Notice::UsageClose) }
    } else if head == "move"@ {
        if ws.len() != 3 {
            usage(Notice::UsageMove)
        } else if !t.file_names(cur).contains(ws[1]) {
            usage(Notice::MoveMissing)
        } else {
            dir_post(o, f, CommandKind::Move, ws[2], ws[1], step)
        }
    } else if head == "copy"@ {
        if ws.len() != 3 {
            usage(Notice::UsageCopy)
        } else if !t.file_names(cur).contains(ws[1]) {
            usage(Notice::CopyMissing)
        } else {
            dir_post(o, f, CommandKind::Copy, ws[2], ws[1], step)
        }
    } else if head == "rename"@ {
        if ws.len() != 3 {
            usage(Notice::UsageRename)
        } else if t.file_names(cur).contains(ws[1]) {
            if ws[2] != ws[1] && t.taken(cur, ws[2]) {
                usage(Notice::NameTaken)
            } else {
                unchanged(o, f) && (step matches Step::Perform(a, c) && (action_is(
                    a,
                    FsKind::Rename,
                    t.path(cur).push(ws[1]),
                    t.path(cur).push(ws[2]),
                ) && (c matches Change::RenameFile { dir, from, to } && dir == cur && from@ == ws[1]
                    && to@ == ws[2])))
            }
        } else {
            dir_post(o, f, CommandKind::Rename, ws[1], ws[2], step)
        }
    } else if head == "new"@ {
        if ws.len() != 3 || (ws[1] != "file"@ && ws[1] != "directory"@) {
            usage(Notice::UsageNew)
        } else if t.taken(cur, ws[2]) {
            usage(Notice::AlreadyExists)
        } else if ws[1] == "file"@ {
            unchanged(o, f) && (step matches Step::Perform(a, c) && (action_is(
                a,
                FsKind::CreateFile,
                t.path(cur).push(ws[2]),
                Seq::empty(),
            ) && (c matches Change::NewFile { dir, name } && dir == cur && name@ == ws[2])))
        } else {
            unchanged(o, f) && (step matches Step::Perform(a, c) && (action_is(
                a,
                FsKind::CreateDir,
                t.path(cur).push(ws[2]),
                Seq::empty(),
            ) && (c matches Change::NewDir { dir, name } && dir == cur && name@ == ws[2])))
        }
    } else if head == "remove"@ {
        if ws.len() != 2 {
            usage(Notice::UsageRemove)
        } else if t.file_names(cur).contains(ws[1]) {
            unchanged(o, f) && (step matches Step::Perform(a, c) && (action_is(
                a,
                FsKind::RemoveFile,
                t.path(cur).push(ws[1]),
                Seq::empty(),
            ) && (c matches Change::RemoveFile { dir, name } && dir == cur && name@ == ws[1])))
        } else {
            dir_post(o, f, CommandKind::Remove, ws[1], Seq::empty(), step)
        }
    } else {
        usage(Notice::InvalidCommand)
    }
}

/// Whether `w` spells `s`.
fn is_word(w: &Vec<char>, s: &str) -> (r: bool)
    ensures
        r == (w@ == s@),
{
    let v = crate::text::chars_of(s);
    crate::text::names_equal(w, &v)
}

impl StateManager {
    /// Takes one line from the command line: a full command while nothing is pending, else
    /// the answer that the pending ambiguity or removal waits for. Both views are rebuilt after.
    pub fn process_command(&mut self, command: &Vec<char>) -> (step: Step)
        requires
            old(self).wf(),
        ensures
            final(self).wf(),
            final(self).fresh(),
            ({
                let ws = words(command@);
                if ws.len() == 0 {
                    step == Step::Done(Notice::EnterCommand) && unchanged(*old(self), *final(self))
                } else {
                    match old(self).pending {
                        Pending::Confirmation { target } => confirm_post(*old(self), *final(self), target as int, ws, step),
                        Pending::Disambiguation { command, arg } => pick_post(*old(self), *final(self), command, arg@, ws, step),
                        Pending::Idle => command_post(*old(self), *final(self), ws, step),
                    }
                }
            }),
    {
        let step = self.decide(command);
        self.refresh_area();
        step
    }

    fn decide(&mut self, command: &Vec<char>) -> (step: Step)
        requires
            old(self).wf(),
        ensures
            final(self).wf(),
            ({
                let ws = words(command@);
                if ws.len() == 0 {
                    step == Step::Done(Notice::EnterCommand) && unchanged(*old(self), *final(self))
                } else {
                    match old(self).pending {
                        Pending::Confirmation { target } => confirm_post(*old(self), *final(self), target as int, ws, step),
                        Pending::Disambiguation { command, arg } => pick_post(*old(self), *final(self), command, arg@, ws, step),
                        Pending::Idle => command_post(*old(self), *final(self), ws, step),
                    }
                }
            }),
    {
        let ws = split_words(command);
        let ghost wv = views_of(ws@);
        assert(wv == words(command@));
        assert(wv.len() == ws@.len());
        if ws.len() == 0 {
            return Step::Done(Notice::EnterCommand);
        }
        assert(ws@[0]@ == wv[0]);
        let mut pending = Pending::Idle;
        std::mem::swap(&mut self.pending, &mut pending);
        match pending {
            Pending::Confirmation { target } => {
                if ws.len() == 1 && is_word(&ws[0], "yes") {
                    assert(wv =~= seq!["yes"@]);
                    self.marks.to_remove = None;
                    let from = self.tree.path_of(target);
                    let a = FsAction { kind: FsKind::RemoveDirAll, from, to: Vec::new() };
                    assert(views_of(a.to@) =~= Seq::empty());
                    return Step::Perform(a, Change::RemoveDir { id: target });
                }
                if ws.len() == 1 && is_word(&ws[0], "no") {
                    assert(wv =~= seq!["no"@]);
                    proof {
                        reveal_strlit("yes");
                        reveal_strlit("no");
                        assert("yes"@ != "no"@) by {
                            assert("yes"@.len() != "no"@.len());
                        }
                    }
                    self.marks.to_remove = None;
                    return Step::Done(Notice::Title);
                }
                proof {
                    if wv == seq!["yes"@] {
                        assert(ws.len() == 1 && ws@[0]@ == "yes"@);
                    }
                    if wv == seq!["no"@] {
                        assert(ws.len() == 1 && ws@[0]@ == "no"@);
                    }
                }
                self.pending = Pending::Confirmation { target };
                Step::Done(Notice::AskYesNo)
            },
            Pending::Disambiguation { command, arg } => {
                if ws.len() == 1 {
                    match parse_usize(&ws[0]) {
                        Some(n) => {
                            if n < self.marks.ambiguous.len() {
                                let dir = self.marks.ambiguous[n];
                                self.marks.ambiguous = Vec::new();
                                return self.run(command, dir, arg);
                            }
                        },
                        None => {
                            if is_word(&ws[0], "cancel") {
                                assert(wv =~= seq!["cancel"@]);
                                self.marks.ambiguous = Vec::new();
                                return Step::Done(Notice::Title);
                            }
                        },
                    }
                }
                proof {
                    if wv == seq!["cancel"@] {
                        assert(ws.len() == 1 && ws@[0]@ == "cancel"@);
                        reveal_strlit("cancel");
                        assert(parse_index("cancel"@) is None) by {
                            assert(crate::text::unsigned_digits("cancel"@) == "cancel"@);
                            assert(!crate::text::is_digit("cancel"@[0]));
                        }
                    }
                }
                self.pending = Pending::Disambiguation { command, arg };
                Step::Done(Notice::AskIndex)
            },
            Pending::Idle => self.idle_command(&ws),
        }
    }

    fn idle_command(&mut self, ws: &Vec<Vec<char>>) -> (step: Step)
        requires
            old(self).wf(),
            old(self).pending is Idle,
            ws.len() > 0,
        ensures
            final(self).wf(),
            command_post(*old(self), *final(self), views_of(ws@), step),
    {
        let ghost wv = views_of(ws@);
        let cur = self.marks.current;
        let head = &ws[0];
        assert(head@ == wv[0]);
        proof {
            if ws.len() > 1 {
                assert(ws@[1]@ == wv[1]);
            }
            if ws.len() > 2 {
                assert(ws@[2]@ == wv[2]);
            }
        }
        if is_word(head, "enter") {
            if ws.len() == 2 {
                return self.get_dir(CommandKind::Enter, &ws[1], Vec::new());
            }
            return Step::Done(Notice::UsageEnter);
        }
        if is_word(head, "open") {
            if ws.len() == 2 {
                return self.get_dir(CommandKind::Open, &ws[1], Vec::new());
            }
            return Step::Done(Notice::UsageOpen);
        }
        if is_word(head, "close") {
            if ws.len() == 2 {
                return self.get_dir(CommandKind::Close, &ws[1], Vec::new());
            }
            return Step::Done(Notice::UsageClose);
        }
        if is_word(head, "move") || is_word(head, "copy") {
            let is_move = is_word(head, "move");
            if ws.len() != 3 {
                return Step::Done(if is_move { Notice::UsageMove } else { Notice::UsageCopy });
            }
            if self.tree.find_file(cur, &ws[1]).is_none() {
                return Step::Done(if is_move { Notice::MoveMissing } else { Notice::CopyMissing });
            }
            let kind = if is_move { CommandKind::Move } else { CommandKind::Copy };
            return self.get_dir(kind, &ws[2], copy_name(&ws[1]));
        }
        if is_word(head, "rename") {
            if ws.len() != 3 {
                return Step::Done(Notice::UsageRename);
            }
            if self.tree.find_file(cur, &ws[1]).is_some() {
                if !crate::text::names_equal(&ws[2], &ws[1]) && self.tree.name_taken(cur, &ws[2]) {
                    return Step::Done(Notice::NameTaken);
                }
                let base = self.tree.path_of(cur);
                let from = join(&base, &ws[1]);
                let to = join(&base, &ws[2]);
                let c = Change::RenameFile { dir: cur, from: copy_name(&ws[1]), to: copy_name(&ws[2]) };
                return Step::Perform(FsAction { kind: FsKind::Rename, from, to }, c);
            }
            return self.get_dir(CommandKind::Rename, &ws[1], copy_name(&ws[2]));
        }
        if is_word(head, "new") {
            if ws.len() != 3 || (!is_word(&ws[1], "file") && !is_word(&ws[1], "directory")) {
                return Step::Done(Notice::UsageNew);
            }
            if self.tree.name_taken(cur, &ws[2]) {
                return Step::Done(Notice::AlreadyExists);
            }
            let path = join(&self.tree.path_of(cur), &ws[2]);
            let none: Vec<Vec<char>> = Vec::new();
            assert(views_of(none@) =~= Seq::empty());
            if is_word(&ws[1], "file") {
                let c = Change::NewFile { dir: cur, name: copy_name(&ws[2]) };
                return Step::Perform(FsAction { kind: FsKind::CreateFile, from: path, to: none }, c);
            }
            let c = Change::NewDir { dir: cur, name: copy_name(&ws[2]) };
            return Step::Perform(FsAction { kind: FsKind::CreateDir, from: path, to: none }, c);
        }
        if is_word(head, "remove") {
            if ws.len() != 2 {
                return Step::Done(Notice::UsageRemove);
            }
            if self.tree.find_file(cur, &ws[1]).is_some() {
                let path = join(&self.tree.path_of(cur), &ws[1]);
                let none: Vec<Vec<char>> = Vec::new();
                assert(views_of(none@) =~= Seq::empty());
                let c = Change::RemoveFile { dir: cur, name: copy_name(&ws[1]) };
                return Step::Perform(FsAction { kind: FsKind::RemoveFile, from: path, to: none }, c);
            }
            return self.get_dir(CommandKind::Remove, &ws[1], Vec::new());
        }
        Step::Done(Notice::InvalidCommand)
    }
}

/// `f` is `o` with a file named `name` added to directory `dir`, at its place.
pub open spec fn file_added(o: DirTree, f: DirTree, dir: int, name: Seq<char>, modified: i64, size: u64) -> bool {
    &&& o.same_but_files(f, dir)
    &&& exists|k: int|
        0 <= k <= o.nodes@[dir].files@.len() && f.nodes@[dir].files@ == #[trigger] o.nodes@[dir].files@.insert(
            k,
            f.nodes@[dir].files@[k],
        ) && f.nodes@[dir].files@[k].name@ == name && f.nodes@[dir].files@[k].modified == modified
            && f.nodes@[dir].files@[k].size == size
}

/// `f` is `o` with the file at position `k` of directory `dir` taken out.
pub open spec fn file_dropped(o: DirTree, f: DirTree, dir: int, k: int) -> bool {
    &&& o.same_but_files(f, dir)
    &&& 0 <= k < o.nodes@[dir].files@.len()
    &&& f.nodes@[dir].files@ == o.nodes@[dir].files@.remove(k)
}

/// `f` is `o` with the file named `name` in `from_dir` moved to `to_dir` as `new_name`, its
/// times and size kept.
pub open spec fn file_moved(o: DirTree, f: DirTree, from_dir: int, name: Seq<char>, to_dir: int, new_name: Seq<char>) -> bool {
    exists|k: int, mid: DirTree|
        #[trigger] file_dropped(o, mid, from_dir, k) && o.file_names(from_dir)[k] == name && file_added(
            mid,
            f,
            to_dir,
            new_name,
            o.nodes@[from_dir].files@[k].modified,
            o.nodes@[from_dir].files@[k].size,
        )
}

/// The marks of `s` that do not lie in the subtree of `id`, in order.
pub open spec fn outside(t: DirTree, id: int, s: Seq<usize>) -> Seq<usize>
    decreases s.len(),
{
    if s.len() == 0 {
        s
    } else if t.within(id, s.last() as int) {
        outside(t, id, s.drop_last())
    } else {
        outside(t, id, s.drop_last()).push(s.last())
    }
}

/// What `apply` does with a change once its filesystem operation has succeeded: the tree takes
/// the change where it still fits, else it is left as it was and a notice says why.
pub open spec fn apply_post(o: StateManager, f: StateManager, c: Change, stamp: Stamp, r: Notice) -> bool {
    let t = o.tree;
    let n = t.nodes@.len();
    let keep_marks = f.marks.current == o.marks.current && f.marks.closed@ == o.marks.closed@;
    &&& f.marks.ambiguous@ == o.marks.ambiguous@
    &&& f.marks.to_remove == o.marks.to_remove
    &&& f.pending == o.pending
    &&& (r != Notice::Title ==> f.tree.nodes@ == o.tree.nodes@ && keep_marks)
    &&& match c {
        Change::NewFile { dir, name } => {
            &&& (r == Notice::Title <==> dir < n && !t.taken(dir as int, name@))
            &&& r == Notice::Title ==> keep_marks && file_added(t, f.tree, dir as int, name@, stamp.modified, stamp.size)
        },
        Change::CopyFile { to_dir, new_name } => {
            &&& (r == Notice::Title <==> to_dir < n && !t.taken(to_dir as int, new_name@))
            &&& r == Notice::Title ==> keep_marks && file_added(t, f.tree, to_dir as int, new_name@, stamp.modified, stamp.size)
        },
        Change::NewDir { dir, name } => {
            &&& (r == Notice::Title <==> dir < n && !t.taken(dir as int, name@))
            &&& r == Notice::Title ==> {
                &&& keep_marks
                &&& f.tree.nodes@.len() == n + 1
                &&& t.same_but_dirs(f.tree, dir as int)
                &&& f.tree.nodes@[n as int].name@ == name@
                &&& f.tree.nodes@[n as int].modified == stamp.modified
                &&& f.tree.nodes@[n as int].files@.len() == 0
                &&& f.tree.nodes@[n as int].directories@.len() == 0
                &&& f.tree.nodes@[n as int].parent == Some(dir)
                &&& exists|k: int| 0 <= k <= t.nodes@[dir as int].directories@.len()
                    && f.tree.nodes@[dir as int].directories@ == #[trigger] t.nodes@[dir as int].directories@.insert(k, n as usize)
            }
        },
        Change::RenameFile { dir, from, to } => {
            &&& (r == Notice::Title <==> dir < n && t.file_names(dir as int).contains(from@) && (to@ == from@ || !t.taken(dir as int, to@)))
            &&& r == Notice::Title ==> keep_marks && file_moved(t, f.tree, dir as int, from@, dir as int, to@)
        },
        Change::MoveFile { from_dir, name, to_dir, new_name } => {
            &&& (r == Notice::Title <==> from_dir < n && to_dir < n && t.file_names(from_dir as int).contains(name@)
                && (!t.taken(to_dir as int, new_name@) || (to_dir == from_dir && new_name@ == name@)))
            &&& r == Notice::Title ==> keep_marks && file_moved(t, f.tree, from_dir as int, name@, to_dir as int, new_name@)
        },
        Change::RemoveFile { dir, name } => {
            &&& (r == Notice::Title <==> dir < n && t.file_names(dir as int).contains(name@))
            &&& r == Notice::Title ==> keep_marks && exists|k: int| #[trigger] file_dropped(t, f.tree, dir as int, k)
                && t.file_names(dir as int)[k] == name@
        },
        Change::RenameDir { id, name } => {
            &&& (r == Notice::Title <==> id < n && t.nodes@[id as int].parent is Some && t.nodes@[t.nodes@[id as int].parent->0 as int].directories@.contains(id)
                && (name@ == t.nodes@[id as int].name@ || !t.taken(t.nodes@[id as int].parent->0 as int, name@)))
            &&& r == Notice::Title ==> {
                let p = t.nodes@[id as int].parent->0 as int;
                &&& keep_marks
                &&& f.tree.nodes@.len() == n
                &&& f.tree.nodes@[id as int].name@ == name@
                &&& f.tree.nodes@[id as int].modified == t.nodes@[id as int].modified
                &&& f.tree.nodes@[id as int].files@ == t.nodes@[id as int].files@
                &&& f.tree.nodes@[id as int].directories@ == t.nodes@[id as int].directories@
                &&& f.tree.nodes@[id as int].parent == t.nodes@[id as int].parent
                &&& f.tree.nodes@[p].files@ == t.nodes@[p].files@
                &&& f.tree.nodes@[p].directories@.to_multiset() == t.nodes@[p].directories@.to_multiset()
                &&& forall|j: int| 0 <= j < n && j != id && j != p ==> f.tree.nodes@[j] == t.nodes@[j]
            }
        },
        Change::RemoveDir { id } => {
            &&& (r == Notice::Title <==> 0 < id < n && t.nodes@[id as int].parent is Some
                && t.nodes@[t.nodes@[id as int].parent->0 as int].directories@.contains(id))
            &&& r == Notice::Title ==> {
                let p = t.nodes@[id as int].parent->0 as int;
                let cur = o.marks.current as int;
                &&& f.tree.nodes@.len() == n
                &&& t.same_but_dirs(f.tree, p)
                &&& exists|k: int| 0 <= k < t.nodes@[p].directories@.len() && t.nodes@[p].directories@[k] == id
                    && f.tree.nodes@[p].directories@ == #[trigger] t.nodes@[p].directories@.remove(k)
                &&& f.marks.current == if t.within(id as int, cur) { p } else { cur }
                &&& f.marks.closed@ == outside(t, id as int, o.marks.closed@)
            }
        },
    }
}

impl StateManager {
    /// Moves the file named `name` from `from_dir` to `to_dir` as `new_name`.
    fn move_file(&mut self, from_dir: usize, name: &Vec<char>, to_dir: usize, new_name: Vec<char>) -> (ok: bool)
        requires
            old(self).wf(),
            from_dir < old(self).tree.nodes@.len(),
            to_dir < old(self).tree.nodes@.len(),
        ensures
            final(self).wf(),
            final(self).marks == old(self).marks,
            final(self).pending == old(self).pending,
            final(self).tree_view == old(self).tree_view,
            final(self).dir_contents == old(self).dir_contents,
            ok == (old(self).tree.file_names(from_dir as int).contains(name@) && (!old(self).tree.taken(to_dir as int, new_name@)
                || (to_dir == from_dir && new_name@ == name@))),
            ok ==> file_moved(old(self).tree, final(self).tree, from_dir as int, name@, to_dir as int, new_name@),
            !ok ==> final(self).tree.nodes@ == old(self).tree.nodes@,
            final(self).tree.nodes@.len() == old(self).tree.nodes@.len(),
    {
        let k = match self.tree.find_file(from_dir, name) {
            Some(k) => k,
            None => {
                return false;
            },
        };
        proof {
            assert(self.tree.file_names(from_dir as int).contains(name@));
        }
        let same = to_dir == from_dir && crate::text::names_equal(&new_name, name);
        if !same && self.tree.name_taken(to_dir, &new_name) {
            return false;
        }
        let ghost o = self.tree;
        let old_file = self.tree.remove_file(from_dir, k);
        let ghost mid = self.tree;
        proof {
            assert(file_dropped(o, mid, from_dir as int, k as int));
            assert(o.file_names(from_dir as int)[k as int] == name@);
            o.lemma_unique_file(from_dir as int, k as int);
            if to_dir == from_dir {
                assert(mid.file_names(to_dir as int) =~= o.file_names(to_dir as int).remove(k as int));
                if mid.file_names(to_dir as int).contains(new_name@) {
                    let j = choose|j: int| 0 <= j < mid.file_names(to_dir as int).len() && mid.file_names(to_dir as int)[j] == new_name@;
                    if j < k {
                        assert(o.file_names(to_dir as int)[j] == new_name@);
                    } else {
                        assert(o.file_names(to_dir as int)[j + 1] == new_name@);
                    }
                }
            } else {
                assert(mid.file_names(to_dir as int) == o.file_names(to_dir as int));
            }
            assert(mid.dir_names(to_dir as int) =~= o.dir_names(to_dir as int)) by {
                assert(o.node_ok(to_dir as int));
                assert(o.children_ok(to_dir as int));
                assert forall|m: int| 0 <= m < mid.dir_names(to_dir as int).len() implies mid.dir_names(to_dir as int)[m]
                    == o.dir_names(to_dir as int)[m] by {
                    let c = o.nodes@[to_dir as int].directories@[m] as int;
                    if c == from_dir {
                        assert(mid.nodes@[c].name@ == o.nodes@[c].name@);
                    }
                }
            }
        }
        let file = File { name: new_name, modified: old_file.modified, size: old_file.size };
        let ghost fv = file;
        assert(!mid.taken(to_dir as int, fv.name@));
        let r = self.tree.insert_file(to_dir, file);
        proof {
            assert(r is Ok);
            let kk = r->Ok_0 as int;
            assert(self.tree.nodes@[to_dir as int].files@ == mid.nodes@[to_dir as int].files@.insert(kk, fv));
            assert(self.tree.nodes@[to_dir as int].files@[kk] == fv);
            assert(file_added(mid, self.tree, to_dir as int, new_name@, o.nodes@[from_dir as int].files@[k as int].modified, o.nodes@[from_dir as int].files@[k as int].size));
        }
        true
    }

    fn add_file(&mut self, dir: usize, name: Vec<char>, stamp: Stamp) -> (r: Notice)
        requires
            old(self).wf(),
        ensures
            final(self).wf(),
            final(self).marks == old(self).marks,
            final(self).pending == old(self).pending,
            final(self).tree.nodes@.len() == old(self).tree.nodes@.len(),
            r != Notice::Title ==> final(self).tree.nodes@ == old(self).tree.nodes@,
            r == Notice::Title <==> dir < old(self).tree.nodes@.len() && !old(self).tree.taken(dir as int, name@),
            r == Notice::Title ==> file_added(old(self).tree, final(self).tree, dir as int, name@, stamp.modified, stamp.size),
    {
        if dir >= self.tree.nodes.len() {
            return Notice::DoesNotExist;
        }
        let ghost o = self.tree;
        let file = File { name, modified: stamp.modified, size: stamp.size };
        let ghost fv = file;
        match self.tree.insert_file(dir, file) {
            Ok(k) => {
                proof {
                    assert(self.tree.nodes@[dir as int].files@ == o.nodes@[dir as int].files@.insert(k as int, fv));
                    assert(self.tree.nodes@[dir as int].files@[k as int] == fv);
                }
                Notice::Title
            },
            Err(_) => Notice::NameTaken,
        }
    }

    /// Mirrors a filesystem operation that succeeded: the tree takes `change`, with `stamp` as
    /// the metadata of what was created. Both views are rebuilt after.
    pub fn apply(&mut self, change: Change, stamp: Stamp) -> (r: Notice)
        requires
            old(self).wf(),
        ensures
            final(self).wf(),
            final(self).fresh(),
            apply_post(*old(self), *final(self), change, stamp, r),
    {
        let r = self.apply_change(change, stamp);
        self.refresh_area();
        r
    }

    fn apply_change(&mut self, change: Change, stamp: Stamp) -> (r: Notice)
        requires
            old(self).wf(),
        ensures
            final(self).wf(),
            apply_post(*old(self), *final(self), change, stamp, r),
    {
        let ghost o = *self;
        let n = self.tree.nodes.len();
        match change {
            Change::NewFile { dir, name } => self.add_file(dir, name, stamp),
            Change::CopyFile { to_dir, new_name } => self.add_file(to_dir, new_name, stamp),
            Change::NewDir { dir, name } => {
                if dir >= n {
                    return Notice::DoesNotExist;
                }
                match self.tree.insert_directory(dir, name, stamp.modified) {
                    Ok(_) => Notice::Title,
                    Err(_) => Notice::NameTaken,
                }
            },
            Change::RenameFile { dir, from, to } => {
                if dir >= n {
                    return Notice::DoesNotExist;
                }
                if self.move_file(dir, &from, dir, to) {
                    Notice::Title
                } else {
                    Notice::NameTaken
                }
            },
            Change::MoveFile { from_dir, name, to_dir, new_name } => {
                if from_dir >= n || to_dir >= n {
                    return Notice::DoesNotExist;
                }
                if self.move_file(from_dir, &name, to_dir, new_name) {
                    Notice::Title
                } else {
                    Notice::NameTaken
                }
            },
            Change::RemoveFile { dir, name } => {
                if dir >= n {
                    return Notice::DoesNotExist;
                }
                match self.tree.find_file(dir, &name) {
                    Some(k) => {
                        self.tree.remove_file(dir, k);
                        proof {
                            assert(file_dropped(o.tree, self.tree, dir as int, k as int));
                        }
                        Notice::Title
                    },
                    None => Notice::DoesNotExist,
                }
            },
            Change::RenameDir { id, name } => {
                if id >= n {
                    return Notice::DoesNotExist;
                }
                match self.tree.rename_directory(id, name) {
                    Ok(()) => Notice::Title,
                    Err(TreeError::NameTaken) => Notice::NameTaken,
                    Err(_) => Notice::DoesNotExist,
                }
            },
            Change::RemoveDir { id } => {
                if id >= n {
                    return Notice::DoesNotExist;
                }
                let p = match self.tree.nodes[id].parent {
                    Some(p) => p,
                    None => {
                        return Notice::DoesNotExist;
                    },
                };
                let ghost t0 = self.tree;
                proof {
                    assert(t0.node_ok(id as int));
                }
                let inside = self.tree.is_within(id, self.marks.current);
                let mut kept: Vec<usize> = Vec::new();
                let mut i: usize = 0;
                assert(self.marks.closed@.subrange(0, 0) =~= Seq::<usize>::empty());
                while i < self.marks.closed.len()
                    invariant
                        self.tree == t0,
                        i <= self.marks.closed@.len(),
                        kept@ == outside(t0, id as int, self.marks.closed@.subrange(0, i as int)),
                        all_below(kept@, t0.nodes@.len() as int),
                        all_below(self.marks.closed@, t0.nodes@.len() as int),
                    decreases self.marks.closed@.len() - i,
                {
                    let c = self.marks.closed[i];
                    assert(self.marks.closed@.subrange(0, i + 1).drop_last() =~= self.marks.closed@.subrange(0, i as int));
                    if !self.tree.is_within(id, c) {
                        kept.push(c);
                    }
                    i = i + 1;
                }
                assert(self.marks.closed@.subrange(0, i as int) =~= self.marks.closed@);
                match self.tree.detach_directory(id) {
                    Ok(()) => {
                        if inside {
                            self.marks.current = p;
                        }
                        self.marks.closed = kept;
                        Notice::Title
                    },
                    Err(_) => Notice::DoesNotExist,
                }
            },
        }
    }
}

} // verus!

use vstd::prelude::*;

use crate::text::{lemma_name_lt_asymmetric, lemma_name_lt_irreflexive, lemma_name_lt_total, lemma_name_lt_transitive, name_lt, names_equal, names_less};

verus! {

/// Whether a sequence of names is strictly ascending, hence free of repeats.
pub open spec fn sorted_names(s: Seq<Seq<char>>) -> bool {
    forall|a: int, b: int| 0 <= a < b < s.len() ==> name_lt(#[trigger] s[a], #[trigger] s[b])
}

/// A file of the mirrored tree.
pub struct File {
    pub name: Vec<char>,
    /// Seconds since the Unix epoch.
    pub modified: i64,
    pub size: u64,
}

/// A directory of the mirrored tree. Subdirectories are ids into the tree's arena.
pub struct Directory {
    pub name: Vec<char>,
    /// Seconds since the Unix epoch.
    pub modified: i64,
    pub files: Vec<File>,
    pub directories: Vec<usize>,
    pub parent: Option<usize>,
}

/// An in-memory mirror of a directory subtree. Directory 0 is the root; a directory keeps its
/// id for its whole life, and a subdirectory always has a larger id than its parent.
pub struct DirTree {
    pub nodes: Vec<Directory>,
}

/// Why a change to the tree was refused.
#[derive(PartialEq, Eq, Structural, Clone, Copy, Debug)]
pub enum TreeError {
    /// The directory already holds a file or directory of that name.
    NameTaken,
    /// The root directory cannot be renamed or removed.
    IsRoot,
    /// No such directory or file.
    NotFound,
}

impl DirTree {
    pub open spec fn file_names(self, i: int) -> Seq<Seq<char>> {
        self.nodes@[i].files@.map_values(|f: File| f.name@)
    }

    pub open spec fn dir_names(self, i: int) -> Seq<Seq<char>> {
        self.nodes@[i].directories@.map_values(|c: usize| self.nodes@[c as int].name@)
    }

    /// Every name in directory `i`, of files and of subdirectories.
    pub open spec fn taken(self, i: int, name: Seq<char>) -> bool {
        self.file_names(i).contains(name) || self.dir_names(i).contains(name)
    }

    pub open spec fn parent_ok(self, i: int) -> bool {
        match self.nodes@[i].parent {
            Some(p) => p < i,
            None => i == 0,
        }
    }

    pub open spec fn children_ok(self, i: int) -> bool {
        forall|k: int|
            0 <= k < self.nodes@[i].directories@.len() ==> {
                let c = #[trigger] self.nodes@[i].directories@[k];
                &&& i < c < self.nodes@.len()
                &&& self.nodes@[c as int].parent == Some(i as usize)
            }
    }

    pub open spec fn names_ok(self, i: int) -> bool {
        &&& sorted_names(self.file_names(i))
        &&& sorted_names(self.dir_names(i))
        &&& forall|a: int, b: int|
            0 <= a < self.file_names(i).len() && 0 <= b < self.dir_names(i).len()
                ==> #[trigger] self.file_names(i)[a] != #[trigger] self.dir_names(i)[b]
    }

    pub open spec fn node_ok(self, i: int) -> bool {
        self.parent_ok(i) && self.children_ok(i) && self.names_ok(i)
    }

    /// The tree's invariant: a root without parent, children listed under their parent with
    /// larger ids, and in every directory the files and the subdirectories sorted by name, with
    /// no name used twice.
    pub open spec fn wf(self) -> bool {
        &&& self.nodes@.len() >= 1
        &&& self.nodes@[0].parent is None
        &&& forall|i: int| 0 <= i < self.nodes@.len() ==> #[trigger] self.node_ok(i)
    }

    /// `b` is `a` or lies below it.
    pub open spec fn within(self, a: int, b: int) -> bool
        decreases b,
    {
        if b == a {
            true
        } else if 0 <= b < self.nodes@.len() {
            match self.nodes@[b].parent {
                Some(p) => if (p as int) < b {
                    self.within(a, p as int)
                } else {
                    false
                },
                None => false,
            }
        } else {
            false
        }
    }

    /// The tree holding only an empty root.
    pub fn new(name: Vec<char>, modified: i64) -> (t: DirTree)
        ensures
            t.wf(),
            t.nodes@.len() == 1,
            t.nodes@[0].name@ == name@,
            t.nodes@[0].modified == modified,
            t.nodes@[0].files@.len() == 0,
            t.nodes@[0].directories@.len() == 0,
    {
        let root = Directory {
            name,
            modified,
            files: Vec::new(),
            directories: Vec::new(),
            parent: None,
        };
        let mut nodes: Vec<Directory> = Vec::new();
        nodes.push(root);
        let t = DirTree { nodes };
        assert(t.node_ok(0)) by {
            assert(t.file_names(0) =~= Seq::empty());
            assert(t.dir_names(0) =~= Seq::empty());
        }
        t
    }

    /// Index of the file named `name` in directory `dir`.
    pub fn find_file(&self, dir: usize, name: &Vec<char>) -> (r: Option<usize>)
        requires
            dir < self.nodes@.len(),
        ensures
            match r {
                Some(k) => k < self.nodes@[dir as int].files@.len() && self.file_names(
                    dir as int,
                )[k as int] == name@,
                None => !self.file_names(dir as int).contains(name@),
            },
    {
        let files = &self.nodes[dir].files;
        let mut k: usize = 0;
        while k < files.len()
            invariant
                files == &self.nodes@[dir as int].files,
                k <= files.len(),
                forall|j: int| 0 <= j < k ==> self.file_names(dir as int)[j] != name@,
            decreases files.len() - k,
        {
            if names_equal(&files[k].name, name) {
                return Some(k);
            }
            k = k + 1;
        }
        None
    }

    /// Position of directory `id` among the subdirectories of `dir`.
    pub fn find_child(&self, dir: usize, id: usize) -> (r: Option<usize>)
        requires
            dir < self.nodes@.len(),
        ensures
            match r {
                Some(k) => k < self.nodes@[dir as int].directories@.len()
                    && self.nodes@[dir as int].directories@[k as int] == id,
                None => !self.nodes@[dir as int].directories@.contains(id),
            },
    {
        let dirs = &self.nodes[dir].directories;
        let mut k: usize = 0;
        while k < dirs.len()
            invariant
                dirs == &self.nodes@[dir as int].directories,
                k <= dirs.len(),
                forall|j: int| 0 <= j < k ==> dirs@[j] != id,
            decreases dirs.len() - k,
        {
            if dirs[k] == id {
                return Some(k);
            }
            k = k + 1;
        }
        None
    }

    /// Whether directory `dir` holds a file or a subdirectory named `name`.
    pub fn name_taken(&self, dir: usize, name: &Vec<char>) -> (r: bool)
        requires
            self.wf(),
            dir < self.nodes@.len(),
        ensures
            r == self.taken(dir as int, name@),
    {
        if self.find_file(dir, name).is_some() {
            return true;
        }
        let dirs = &self.nodes[dir].directories;
        let mut k: usize = 0;
        while k < dirs.len()
            invariant
                self.wf(),
                dir < self.nodes@.len(),
                dirs == &self.nodes@[dir as int].directories,
                k <= dirs.len(),
                !self.file_names(dir as int).contains(name@),
                forall|j: int| 0 <= j < k ==> self.dir_names(dir as int)[j] != name@,
            decreases dirs.len() - k,
        {
            assert(self.node_ok(dir as int));
            let c = dirs[k];
            assert(self.nodes@[dir as int].directories@[k as int] == c);
            if names_equal(&self.nodes[c].name, name) {
                assert(self.dir_names(dir as int)[k as int] == name@);
                return true;
            }
            k = k + 1;
        }
        false
    }

    /// Where a file named `name` goes among the files of `dir`.
    fn file_slot(&self, dir: usize, name: &Vec<char>) -> (k: usize)
        requires
            self.wf(),
            dir < self.nodes@.len(),
            !self.file_names(dir as int).contains(name@),
        ensures
            k <= self.file_names(dir as int).len(),
            forall|j: int| 0 <= j < k ==> name_lt(#[trigger] self.file_names(dir as int)[j], name@),
            k < self.file_names(dir as int).len() ==> name_lt(
                name@,
                self.file_names(dir as int)[k as int],
            ),
    {
        let files = &self.nodes[dir].files;
        let mut k: usize = 0;
        while k < files.len()
            invariant
                files == &self.nodes@[dir as int].files,
                k <= files.len(),
                !self.file_names(dir as int).contains(name@),
                forall|j: int|
                    0 <= j < k ==> name_lt(#[trigger] self.file_names(dir as int)[j], name@),
            decreases files.len() - k,
        {
            if names_less(name, &files[k].name) {
                return k;
            }
            proof {
                let x = self.file_names(dir as int)[k as int];
                assert(x == files@[k as int].name@);
                lemma_name_lt_total(x, name@);
            }
            k = k + 1;
        }
        k
    }

    /// Where a directory named `name` goes among the subdirectories of `dir`.
    fn dir_slot(&self, dir: usize, name: &Vec<char>) -> (k: usize)
        requires
            self.wf(),
            dir < self.nodes@.len(),
            !self.dir_names(dir as int).contains(name@),
        ensures
            k <= self.dir_names(dir as int).len(),
            forall|j: int| 0 <= j < k ==> name_lt(#[trigger] self.dir_names(dir as int)[j], name@),
            k < self.dir_names(dir as int).len() ==> name_lt(
                name@,
                self.dir_names(dir as int)[k as int],
            ),
    {
        let dirs = &self.nodes[dir].directories;
        let mut k: usize = 0;
        while k < dirs.len()
            invariant
                self.wf(),
                dir < self.nodes@.len(),
                dirs == &self.nodes@[dir as int].directories,
                k <= dirs.len(),
                !self.dir_names(dir as int).contains(name@),
                forall|j: int|
                    0 <= j < k ==> name_lt(#[trigger] self.dir_names(dir as int)[j], name@),
            decreases dirs.len() - k,
        {
            assert(self.node_ok(dir as int));
            let c = dirs[k];
            assert(self.nodes@[dir as int].directories@[k as int] == c);
            if names_less(name, &self.nodes[c].name) {
                return k;
            }
            proof {
                let x = self.dir_names(dir as int)[k as int];
                lemma_name_lt_total(x, name@);
            }
            k = k + 1;
        }
        k
    }
}

impl DirTree {
    /// Directory `i` of `t` equals that of `self` in all but its file list.
    pub open spec fn same_but_files(self, t: DirTree, i: int) -> bool {
        &&& t.nodes@.len() == self.nodes@.len()
        &&& forall|j: int| 0 <= j < self.nodes@.len() && j != i ==> t.nodes@[j] == self.nodes@[j]
        &&& t.nodes@[i].name@ == self.nodes@[i].name@
        &&& t.nodes@[i].modified == self.nodes@[i].modified
        &&& t.nodes@[i].directories@ == self.nodes@[i].directories@
        &&& t.nodes@[i].parent == self.nodes@[i].parent
    }

    /// Directory `i` of `t` equals that of `self` in all but its subdirectory list.
    pub open spec fn same_but_dirs(self, t: DirTree, i: int) -> bool {
        &&& forall|j: int| 0 <= j < self.nodes@.len() && j != i ==> t.nodes@[j] == self.nodes@[j]
        &&& t.nodes@[i].name@ == self.nodes@[i].name@
        &&& t.nodes@[i].modified == self.nodes@[i].modified
        &&& t.nodes@[i].files@ == self.nodes@[i].files@
        &&& t.nodes@[i].parent == self.nodes@[i].parent
    }

    proof fn lemma_frame_files(self, t: DirTree, i: int)
        requires
            self.wf(),
            0 <= i < self.nodes@.len(),
            self.same_but_files(t, i),
            sorted_names(t.file_names(i)),
            forall|a: int, b: int|
                0 <= a < t.file_names(i).len() && 0 <= b < t.dir_names(i).len()
                    ==> #[trigger] t.file_names(i)[a] != #[trigger] t.dir_names(i)[b],
        ensures
            t.wf(),
    {
        assert forall|j: int| 0 <= j < t.nodes@.len() implies #[trigger] t.node_ok(j) by {
            assert(self.node_ok(j));
            assert(t.dir_names(j) =~= self.dir_names(j)) by {
                assert forall|k: int| 0 <= k < t.dir_names(j).len() implies t.dir_names(j)[k]
                    == self.dir_names(j)[k] by {
                    let c = self.nodes@[j].directories@[k] as int;
                    if c != i {
                        assert(t.nodes@[c] == self.nodes@[c]);
                    }
                }
            }
            if j != i {
                assert(t.file_names(j) =~= self.file_names(j));
            }
            assert(t.children_ok(j)) by {
                assert forall|k: int| 0 <= k < t.nodes@[j].directories@.len() implies {
                    let c = #[trigger] t.nodes@[j].directories@[k];
                    &&& j < c < t.nodes@.len()
                    &&& t.nodes@[c as int].parent == Some(j as usize)
                } by {
                    let c = self.nodes@[j].directories@[k] as int;
                    if c != i {
                        assert(t.nodes@[c] == self.nodes@[c]);
                    }
                }
            }
        }
    }

    /// Adds `file` to directory `dir` at its place by name, unless the name is taken there.
    pub fn insert_file(&mut self, dir: usize, file: File) -> (r: Result<usize, TreeError>)
        requires
            old(self).wf(),
            dir < old(self).nodes@.len(),
        ensures
            final(self).wf(),
            old(self).taken(dir as int, file.name@) ==> r == Err::<usize, TreeError>(
                TreeError::NameTaken,
            ) && final(self).nodes@ == old(self).nodes@,
            !old(self).taken(dir as int, file.name@) ==> r is Ok && r->Ok_0 <= old(self).nodes@[dir as int].files@.len() && old(self).same_but_files(
                *final(self),
                dir as int,
            ) && final(self).nodes@[dir as int].files@ == old(self).nodes@[dir as int].files@.insert(
                r->Ok_0 as int,
                file,
            ),
    {
        if self.name_taken(dir, &file.name) {
            return Err(TreeError::NameTaken);
        }
        let k = self.file_slot(dir, &file.name);
        let ghost prev = *self;
        let ghost name = file.name@;
        self.nodes[dir].files.insert(k, file);
        proof {
            assert(prev.node_ok(dir as int));
            assert(self.file_names(dir as int) =~= prev.file_names(dir as int).insert(k as int, name));
            lemma_sorted_insert(prev.file_names(dir as int), k as int, name);
            assert(self.dir_names(dir as int) =~= prev.dir_names(dir as int)) by {
                assert forall|m: int| 0 <= m < self.dir_names(dir as int).len() implies self.dir_names(dir as int)[m]
                    == prev.dir_names(dir as int)[m] by {
                    let c = prev.nodes@[dir as int].directories@[m] as int;
                    assert(prev.children_ok(dir as int));
                    assert(c > dir);
                }
            }
            assert forall|a: int, b: int|
                0 <= a < self.file_names(dir as int).len() && 0 <= b < self.dir_names(dir as int).len()
                implies #[trigger] self.file_names(dir as int)[a] != #[trigger] self.dir_names(dir as int)[b] by {
                if a < k {
                    assert(self.file_names(dir as int)[a] == prev.file_names(dir as int)[a]);
                } else if a > k {
                    assert(self.file_names(dir as int)[a] == prev.file_names(dir as int)[a - 1]);
                } else {
                    assert(prev.dir_names(dir as int)[b] == self.dir_names(dir as int)[b]);
                }
            }
            prev.lemma_frame_files(*self, dir as int);
        }
        Ok(k)
    }

    /// Takes out the file at position `k` of directory `dir`.
    pub fn remove_file(&mut self, dir: usize, k: usize) -> (f: File)
        requires
            old(self).wf(),
            dir < old(self).nodes@.len(),
            k < old(self).nodes@[dir as int].files@.len(),
        ensures
            final(self).wf(),
            old(self).same_but_files(*final(self), dir as int),
            final(self).nodes@[dir as int].files@ == old(self).nodes@[dir as int].files@.remove(k as int),
            f == old(self).nodes@[dir as int].files@[k as int],
    {
        let ghost prev = *self;
        let f = self.nodes[dir].files.remove(k);
        proof {
            assert(prev.node_ok(dir as int));
            assert(self.file_names(dir as int) =~= prev.file_names(dir as int).remove(k as int));
            lemma_sorted_remove(prev.file_names(dir as int), k as int);
            assert(self.dir_names(dir as int) =~= prev.dir_names(dir as int)) by {
                assert forall|m: int| 0 <= m < self.dir_names(dir as int).len() implies self.dir_names(dir as int)[m]
                    == prev.dir_names(dir as int)[m] by {
                    assert(prev.children_ok(dir as int));
                }
            }
            assert forall|a: int, b: int|
                0 <= a < self.file_names(dir as int).len() && 0 <= b < self.dir_names(dir as int).len()
                implies #[trigger] self.file_names(dir as int)[a] != #[trigger] self.dir_names(dir as int)[b] by {
                if a < k {
                    assert(self.file_names(dir as int)[a] == prev.file_names(dir as int)[a]);
                } else {
                    assert(self.file_names(dir as int)[a] == prev.file_names(dir as int)[a + 1]);
                }
                assert(prev.dir_names(dir as int)[b] == self.dir_names(dir as int)[b]);
            }
            prev.lemma_frame_files(*self, dir as int);
        }
        f
    }
}

impl DirTree {
    proof fn lemma_distinct_children(self, i: int, a: int, b: int)
        requires
            self.wf(),
            0 <= i < self.nodes@.len(),
            0 <= a < b < self.nodes@[i].directories@.len(),
        ensures
            self.nodes@[i].directories@[a] != self.nodes@[i].directories@[b],
    {
        assert(self.node_ok(i));
        assert(name_lt(self.dir_names(i)[a], self.dir_names(i)[b]));
        if self.nodes@[i].directories@[a] == self.nodes@[i].directories@[b] {
            lemma_name_lt_irreflexive(self.dir_names(i)[a]);
        }
    }

    /// Lists directory `id` under its parent, at its place by name.
    fn attach(&mut self, id: usize, p: usize) -> (k: usize)
        requires
            old(self).wf(),
            0 < id < old(self).nodes@.len(),
            old(self).nodes@[id as int].parent == Some(p),
            !old(self).nodes@[p as int].directories@.contains(id),
            !old(self).taken(p as int, old(self).nodes@[id as int].name@),
        ensures
            final(self).wf(),
            final(self).nodes@.len() == old(self).nodes@.len(),
            old(self).same_but_dirs(*final(self), p as int),
            k <= old(self).nodes@[p as int].directories@.len(),
            final(self).nodes@[p as int].directories@ == old(self).nodes@[p as int].directories@.insert(
                k as int,
                id,
            ),
    {
        let ghost prev = *self;
        assert(prev.node_ok(id as int));
        let k = self.dir_slot(p, &self.nodes[id].name);
        let ghost name = prev.nodes@[id as int].name@;
        self.nodes[p].directories.insert(k, id);
        proof {
            let pi = p as int;
            assert(prev.node_ok(pi));
            assert(self.dir_names(pi) =~= prev.dir_names(pi).insert(k as int, name)) by {
                assert(self.nodes@[id as int].name@ == name);
                assert forall|m: int| 0 <= m < self.dir_names(pi).len() implies self.dir_names(pi)[m]
                    == prev.dir_names(pi).insert(k as int, name)[m] by {
                    if m < k {
                        let c = prev.nodes@[pi].directories@[m] as int;
                        assert(prev.children_ok(pi));
                        assert(c != pi);
                    } else if m > k {
                        let c = prev.nodes@[pi].directories@[m - 1] as int;
                        assert(prev.children_ok(pi));
                        assert(c != pi);
                    }
                }
            }
            lemma_sorted_insert(prev.dir_names(pi), k as int, name);
            assert(self.file_names(pi) =~= prev.file_names(pi));
            assert forall|j: int| 0 <= j < self.nodes@.len() implies #[trigger] self.node_ok(j) by {
                assert(prev.node_ok(j));
                if j != pi {
                    assert(self.file_names(j) =~= prev.file_names(j));
                    assert(self.dir_names(j) =~= prev.dir_names(j)) by {
                        assert forall|m: int| 0 <= m < self.dir_names(j).len() implies self.dir_names(j)[m]
                            == prev.dir_names(j)[m] by {
                            assert(prev.children_ok(j));
                        }
                    }
                    assert(self.children_ok(j)) by {
                        assert forall|m: int| 0 <= m < self.nodes@[j].directories@.len() implies {
                            let c = #[trigger] self.nodes@[j].directories@[m];
                            &&& j < c < self.nodes@.len()
                            &&& self.nodes@[c as int].parent == Some(j as usize)
                        } by {
                            assert(prev.children_ok(j));
                            let c = prev.nodes@[j].directories@[m] as int;
                            if c == pi {
                                assert(self.nodes@[c].parent == prev.nodes@[c].parent);
                            }
                        }
                    }
                } else {
                    assert forall|a: int, b: int|
                        0 <= a < self.file_names(j).len() && 0 <= b < self.dir_names(j).len()
                        implies #[trigger] self.file_names(j)[a] != #[trigger] self.dir_names(j)[b] by {
                        if b < k {
                            assert(self.dir_names(j)[b] == prev.dir_names(j)[b]);
                        } else if b > k {
                            assert(self.dir_names(j)[b] == prev.dir_names(j)[b - 1]);
                        } else {
                            assert(self.file_names(j)[a] == prev.file_names(j)[a]);
                        }
                    }
                    assert(self.children_ok(j)) by {
                        assert forall|m: int| 0 <= m < self.nodes@[j].directories@.len() implies {
                            let c = #[trigger] self.nodes@[j].directories@[m];
                            &&& j < c < self.nodes@.len()
                            &&& self.nodes@[c as int].parent == Some(j as usize)
                        } by {
                            assert(prev.children_ok(j));
                            if m < k {
                                assert(self.nodes@[j].directories@[m] == prev.nodes@[j].directories@[m]);
                            } else if m > k {
                                assert(self.nodes@[j].directories@[m] == prev.nodes@[j].directories@[m - 1]);
                            }
                        }
                    }
                }
            }
        }
        k
    }

    /// Takes directory `id` out of its parent's list, at position `k`.
    fn detach_at(&mut self, p: usize, k: usize)
        requires
            old(self).wf(),
            p < old(self).nodes@.len(),
            k < old(self).nodes@[p as int].directories@.len(),
        ensures
            final(self).wf(),
            final(self).nodes@.len() == old(self).nodes@.len(),
            old(self).same_but_dirs(*final(self), p as int),
            final(self).nodes@[p as int].directories@ == old(self).nodes@[p as int].directories@.remove(k as int),
    {
        let ghost prev = *self;
        self.nodes[p].directories.remove(k);
        proof {
            let pi = p as int;
            assert(prev.node_ok(pi));
            assert(prev.children_ok(pi));
            assert(self.dir_names(pi) =~= prev.dir_names(pi).remove(k as int)) by {
                assert forall|m: int| 0 <= m < self.dir_names(pi).len() implies self.dir_names(pi)[m]
                    == prev.dir_names(pi).remove(k as int)[m] by {
                    if m < k {
                        let c = prev.nodes@[pi].directories@[m] as int;
                        assert(c != pi);
                    } else {
                        let c = prev.nodes@[pi].directories@[m + 1] as int;
                        assert(c != pi);
                    }
                }
            }
            lemma_sorted_remove(prev.dir_names(pi), k as int);
            assert(self.file_names(pi) =~= prev.file_names(pi));
            assert forall|j: int| 0 <= j < self.nodes@.len() implies #[trigger] self.node_ok(j) by {
                assert(prev.node_ok(j));
                assert(prev.children_ok(j));
                if j != pi {
                    assert(self.file_names(j) =~= prev.file_names(j));
                    assert(self.dir_names(j) =~= prev.dir_names(j));
                    assert(self.children_ok(j)) by {
                        assert forall|m: int| 0 <= m < self.nodes@[j].directories@.len() implies {
                            let c = #[trigger] self.nodes@[j].directories@[m];
                            &&& j < c < self.nodes@.len()
                            &&& self.nodes@[c as int].parent == Some(j as usize)
                        } by {
                            let c = prev.nodes@[j].directories@[m] as int;
                            if c == pi {
                                assert(self.nodes@[c].parent == prev.nodes@[c].parent);
                            }
                        }
                    }
                } else {
                    assert forall|a: int, b: int|
                        0 <= a < self.file_names(j).len() && 0 <= b < self.dir_names(j).len()
                        implies #[trigger] self.file_names(j)[a] != #[trigger] self.dir_names(j)[b] by {
                        if b < k {
                            assert(self.dir_names(j)[b] == prev.dir_names(j)[b]);
                        } else {
                            assert(self.dir_names(j)[b] == prev.dir_names(j)[b + 1]);
                        }
                        assert(self.file_names(j)[a] == prev.file_names(j)[a]);
                    }
                    assert(self.children_ok(j)) by {
                        assert forall|m: int| 0 <= m < self.nodes@[j].directories@.len() implies {
                            let c = #[trigger] self.nodes@[j].directories@[m];
                            &&& j < c < self.nodes@.len()
                            &&& self.nodes@[c as int].parent == Some(j as usize)
                        } by {
                            if m < k {
                                assert(self.nodes@[j].directories@[m] == prev.nodes@[j].directories@[m]);
                            } else {
                                assert(self.nodes@[j].directories@[m] == prev.nodes@[j].directories@[m + 1]);
                            }
                        }
                    }
                }
            }
        }
    }

    /// Adds an empty directory named `name` under `parent`, unless the name is taken there.
    /// The new directory gets the next free id.
    pub fn insert_directory(&mut self, parent: usize, name: Vec<char>, modified: i64) -> (r: Result<
        usize,
        TreeError,
    >)
        requires
            old(self).wf(),
            parent < old(self).nodes@.len(),
        ensures
            final(self).wf(),
            old(self).taken(parent as int, name@) ==> r == Err::<usize, TreeError>(
                TreeError::NameTaken,
            ) && final(self).nodes@ == old(self).nodes@,
            !old(self).taken(parent as int, name@) ==> r == Ok::<usize, TreeError>(
                old(self).nodes@.len() as usize,
            ) && final(self).nodes@.len() == old(self).nodes@.len() + 1 && old(self).same_but_dirs(
                *final(self),
                parent as int,
            ) && final(self).nodes@[old(self).nodes@.len() as int].name@ == name@
                && final(self).nodes@[old(self).nodes@.len() as int].modified == modified
                && final(self).nodes@[old(self).nodes@.len() as int].files@.len() == 0
                && final(self).nodes@[old(self).nodes@.len() as int].directories@.len() == 0
                && final(self).nodes@[old(self).nodes@.len() as int].parent == Some(parent)
                && exists|k: int|
                0 <= k <= old(self).nodes@[parent as int].directories@.len()
                    && final(self).nodes@[parent as int].directories@
                    == #[trigger] old(self).nodes@[parent as int].directories@.insert(
                    k,
                    old(self).nodes@.len() as usize,
                ),
    {
        if self.name_taken(parent, &name) {
            return Err(TreeError::NameTaken);
        }
        let ghost prev = *self;
        let id = self.nodes.len();
        let node = Directory {
            name,
            modified,
            files: Vec::new(),
            directories: Vec::new(),
            parent: Some(parent),
        };
        self.nodes.push(node);
        proof {
            let mid = *self;
            assert forall|j: int| 0 <= j < mid.nodes@.len() implies #[trigger] mid.node_ok(j) by {
                if j < id {
                    assert(prev.node_ok(j));
                    assert(prev.children_ok(j));
                    assert(mid.nodes@[j] == prev.nodes@[j]);
                    assert(mid.file_names(j) =~= prev.file_names(j));
                    assert(mid.dir_names(j) =~= prev.dir_names(j));
                } else {
                    assert(mid.file_names(j) =~= Seq::empty());
                    assert(mid.dir_names(j) =~= Seq::empty());
                }
            }
            assert(prev.node_ok(parent as int));
            assert(prev.children_ok(parent as int));
            assert(mid.dir_names(parent as int) =~= prev.dir_names(parent as int));
            assert(mid.file_names(parent as int) =~= prev.file_names(parent as int));
            if mid.nodes@[parent as int].directories@.contains(id) {
                let m = choose|m: int| 0 <= m < mid.nodes@[parent as int].directories@.len()
                    && mid.nodes@[parent as int].directories@[m] == id;
                assert(prev.nodes@[parent as int].directories@[m] < id);
            }
        }
        let k = self.attach(id, parent);
        assert(self.nodes@[parent as int].directories@ == prev.nodes@[parent as int].directories@.insert(
            k as int,
            id,
        ));
        Ok(id)
    }

    /// Takes directory `id` out of the tree: its parent no longer lists it.
    pub fn detach_directory(&mut self, id: usize) -> (r: Result<(), TreeError>)
        requires
            old(self).wf(),
            id < old(self).nodes@.len(),
        ensures
            final(self).wf(),
            final(self).nodes@.len() == old(self).nodes@.len(),
            id == 0 ==> r == Err::<(), TreeError>(TreeError::IsRoot),
            r is Err ==> final(self).nodes@ == old(self).nodes@,
            r is Ok ==> id > 0 && old(self).nodes@[id as int].parent is Some && {
                let p = old(self).nodes@[id as int].parent->0 as int;
                &&& old(self).same_but_dirs(*final(self), p)
                &&& exists|k: int|
                    0 <= k < old(self).nodes@[p].directories@.len()
                        && old(self).nodes@[p].directories@[k] == id
                        && final(self).nodes@[p].directories@
                        == old(self).nodes@[p].directories@.remove(k)
            },
            (id > 0 && old(self).nodes@[id as int].parent is Some && old(self).nodes@[old(
                self,
            ).nodes@[id as int].parent->0 as int].directories@.contains(id)) ==> r is Ok,
    {
        if id == 0 {
            return Err(TreeError::IsRoot);
        }
        let p = match self.nodes[id].parent {
            Some(p) => p,
            None => {
                return Err(TreeError::IsRoot);
            },
        };
        proof {
            assert(self.node_ok(id as int));
        }
        match self.find_child(p, id) {
            Some(k) => {
                self.detach_at(p, k);
                Ok(())
            },
            None => Err(TreeError::NotFound),
        }
    }
}

impl DirTree {
    /// Renames directory `id` while no directory lists it.
    fn set_name_unlisted(&mut self, id: usize, p: usize, name: Vec<char>)
        requires
            old(self).wf(),
            id < old(self).nodes@.len(),
            old(self).nodes@[id as int].parent == Some(p),
            !old(self).nodes@[p as int].directories@.contains(id),
        ensures
            final(self).wf(),
            final(self).nodes@.len() == old(self).nodes@.len(),
            forall|j: int| 0 <= j < old(self).nodes@.len() && j != id ==> final(self).nodes@[j] == old(self).nodes@[j],
            final(self).nodes@[id as int].name@ == name@,
            final(self).nodes@[id as int].modified == old(self).nodes@[id as int].modified,
            final(self).nodes@[id as int].files@ == old(self).nodes@[id as int].files@,
            final(self).nodes@[id as int].directories@ == old(self).nodes@[id as int].directories@,
            final(self).nodes@[id as int].parent == old(self).nodes@[id as int].parent,
            forall|j: int| 0 <= j < old(self).nodes@.len() ==> #[trigger] final(self).dir_names(j) == old(self).dir_names(j),
    {
        let ghost prev = *self;
        self.nodes[id].name = name;
        proof {
            assert forall|j: int| 0 <= j < self.nodes@.len() implies #[trigger] self.dir_names(j) == prev.dir_names(j) by {
                assert(prev.node_ok(j));
                assert(prev.children_ok(j));
                assert(self.dir_names(j) =~= prev.dir_names(j)) by {
                    assert forall|m: int| 0 <= m < self.dir_names(j).len() implies self.dir_names(j)[m]
                        == prev.dir_names(j)[m] by {
                        let c = prev.nodes@[j].directories@[m];
                        if c == id {
                            assert(j == p);
                            assert(prev.nodes@[p as int].directories@.contains(id));
                        }
                    }
                }
            }
            assert forall|j: int| 0 <= j < self.nodes@.len() implies #[trigger] self.node_ok(j) by {
                assert(prev.node_ok(j));
                assert(prev.children_ok(j));
                assert(self.dir_names(j) == prev.dir_names(j));
                assert(self.file_names(j) =~= prev.file_names(j));
                assert(self.children_ok(j)) by {
                    assert forall|m: int| 0 <= m < self.nodes@[j].directories@.len() implies {
                        let c = #[trigger] self.nodes@[j].directories@[m];
                        &&& j < c < self.nodes@.len()
                        &&& self.nodes@[c as int].parent == Some(j as usize)
                    } by {
                        let c = prev.nodes@[j].directories@[m] as int;
                        assert(self.nodes@[c].parent == prev.nodes@[c].parent);
                    }
                }
            }
        }
    }

    /// Renames directory `id` and moves it to its new place among its siblings. The root cannot
    /// be renamed, nor a directory to a name that its parent already holds.
    pub fn rename_directory(&mut self, id: usize, name: Vec<char>) -> (r: Result<(), TreeError>)
        requires
            old(self).wf(),
            id < old(self).nodes@.len(),
        ensures
            final(self).wf(),
            final(self).nodes@.len() == old(self).nodes@.len(),
            r is Err ==> final(self).nodes@ == old(self).nodes@,
            old(self).nodes@[id as int].parent is None ==> r == Err::<(), TreeError>(
                TreeError::IsRoot,
            ),
            old(self).nodes@[id as int].parent is Some ==> {
                let p = old(self).nodes@[id as int].parent->0 as int;
                let listed = old(self).nodes@[p].directories@.contains(id);
                let same = name@ == old(self).nodes@[id as int].name@;
                &&& !listed ==> r == Err::<(), TreeError>(TreeError::NotFound)
                &&& listed && !same && old(self).taken(p, name@) ==> r == Err::<(), TreeError>(
                    TreeError::NameTaken,
                )
                &&& listed && (same || !old(self).taken(p, name@)) ==> r is Ok
                &&& r is Ok ==> {
                    &&& final(self).nodes@[id as int].name@ == name@
                    &&& final(self).nodes@[id as int].modified == old(self).nodes@[id as int].modified
                    &&& final(self).nodes@[id as int].files@ == old(self).nodes@[id as int].files@
                    &&& final(self).nodes@[id as int].directories@ == old(self).nodes@[id as int].directories@
                    &&& final(self).nodes@[id as int].parent == old(self).nodes@[id as int].parent
                    &&& final(self).nodes@[p].files@ == old(self).nodes@[p].files@
                    &&& final(self).nodes@[p].directories@.to_multiset() == old(self).nodes@[p].directories@.to_multiset()
                    &&& forall|j: int| 0 <= j < old(self).nodes@.len() && j != id && j != p
                        ==> final(self).nodes@[j] == old(self).nodes@[j]
                }
            },
    {
        let p = match self.nodes[id].parent {
            Some(p) => p,
            None => {
                return Err(TreeError::IsRoot);
            },
        };
        proof {
            assert(self.node_ok(id as int));
        }
        let k = match self.find_child(p, id) {
            Some(k) => k,
            None => {
                return Err(TreeError::NotFound);
            },
        };
        if names_equal(&self.nodes[id].name, &name) {
            return Ok(());
        }
        if self.name_taken(p, &name) {
            return Err(TreeError::NameTaken);
        }
        let ghost prev = *self;
        self.detach_at(p, k);
        proof {
            if self.nodes@[p as int].directories@.contains(id) {
                let m = choose|m: int| 0 <= m < self.nodes@[p as int].directories@.len()
                    && self.nodes@[p as int].directories@[m] == id;
                if m < k {
                    prev.lemma_distinct_children(p as int, m, k as int);
                } else {
                    prev.lemma_distinct_children(p as int, k as int, m + 1);
                }
            }
        }
        let ghost mid = *self;
        let ghost new_name = name@;
        proof {
            assert(prev.node_ok(p as int));
            assert(prev.children_ok(p as int));
            assert(mid.dir_names(p as int) =~= prev.dir_names(p as int).remove(k as int)) by {
                assert forall|m: int| 0 <= m < mid.dir_names(p as int).len() implies mid.dir_names(p as int)[m]
                    == prev.dir_names(p as int).remove(k as int)[m] by {
                    if m < k {
                        assert(prev.nodes@[p as int].directories@[m] > p);
                    } else {
                        assert(prev.nodes@[p as int].directories@[m + 1] > p);
                    }
                }
            }
        }
        self.set_name_unlisted(id, p, name);
        proof {
            assert(self.file_names(p as int) =~= mid.file_names(p as int));
            assert(self.dir_names(p as int) == mid.dir_names(p as int));
            assert(prev.file_names(p as int) =~= mid.file_names(p as int));
            if self.dir_names(p as int).contains(new_name) {
                let m = choose|m: int| 0 <= m < self.dir_names(p as int).len()
                    && self.dir_names(p as int)[m] == new_name;
                if m < k {
                    assert(prev.dir_names(p as int)[m] == new_name);
                } else {
                    assert(prev.dir_names(p as int)[m + 1] == new_name);
                }
            }
        }
        let k2 = self.attach(id, p);
        proof {
            let before = prev.nodes@[p as int].directories@;
            assert(before.remove(k as int).insert(k2 as int, id).to_multiset() =~= before.to_multiset()) by {
                broadcast use vstd::multiset::group_multiset_axioms;
                broadcast use vstd::seq_lib::group_to_multiset_ensures;
                assert(before[k as int] == id);
                assert(before.to_multiset().count(id) > 0);
                vstd::seq_lib::to_multiset_remove(before, k as int);
                vstd::seq_lib::to_multiset_insert(before.remove(k as int), k2 as int, id);
            }
        }
        Ok(())
    }
}

/// `s` with every repeat after the first occurrence left out.
pub open spec fn dedup(s: Seq<usize>) -> Seq<usize>
    decreases s.len(),
{
    if s.len() == 0 {
        s
    } else {
        let d = dedup(s.drop_last());
        if d.contains(s.last()) {
            d
        } else {
            d.push(s.last())
        }
    }
}

/// Whether `x` is in `v`.
pub fn holds(v: &Vec<usize>, x: usize) -> (r: bool)
    ensures
        r == v@.contains(x),
{
    let mut k: usize = 0;
    while k < v.len()
        invariant
            k <= v.len(),
            forall|j: int| 0 <= j < k ==> v@[j] != x,
        decreases v.len() - k,
    {
        if v[k] == x {
            return true;
        }
        k = k + 1;
    }
    false
}

/// Appends `x` unless `v` has it already.
fn push_new(v: &mut Vec<usize>, x: usize)
    ensures
        final(v)@ == if old(v)@.contains(x) {
            old(v)@
        } else {
            old(v)@.push(x)
        },
{
    if !holds(v, x) {
        v.push(x);
    }
}

/// A copy of a name.
pub fn copy_name(v: &Vec<char>) -> (r: Vec<char>)
    ensures
        r@ == v@,
{
    let mut r: Vec<char> = Vec::new();
    crate::text::push_all(&mut r, v);
    assert(r@ =~= v@);
    r
}

impl DirTree {
    /// The directories named `name` in the subtree of `id`, in pre-order with children by name;
    /// the walk does not go below a directory in `closed`, though such a directory itself can match.
    pub open spec fn hits(self, closed: Seq<usize>, id: int, name: Seq<char>) -> Seq<usize>
        decreases self.nodes@.len() - id, 1int, 0int,
    {
        if 0 <= id < self.nodes@.len() {
            let own = if self.nodes@[id].name@ == name {
                seq![id as usize]
            } else {
                Seq::empty()
            };
            if closed.contains(id as usize) {
                own
            } else {
                own + self.hits_kids(closed, id, self.nodes@[id].directories@.len() as int, name)
            }
        } else {
            Seq::empty()
        }
    }

    /// The matches below the first `k` subdirectories of `id`, one after the other.
    pub open spec fn hits_kids(self, closed: Seq<usize>, id: int, k: int, name: Seq<char>) -> Seq<
        usize,
    >
        decreases self.nodes@.len() - id, 0int, k,
    {
        if 0 <= id < self.nodes@.len() && 0 < k <= self.nodes@[id].directories@.len() {
            let c = self.nodes@[id].directories@[k - 1] as int;
            self.hits_kids(closed, id, k - 1, name) + if id < c < self.nodes@.len() {
                self.hits(closed, c, name)
            } else {
                Seq::empty()
            }
        } else {
            Seq::empty()
        }
    }

    /// The matches of `name` below each candidate, one after the other.
    pub open spec fn step(self, closed: Seq<usize>, cands: Seq<usize>, name: Seq<char>) -> Seq<
        usize,
    >
        decreases cands.len(),
    {
        if cands.len() == 0 {
            Seq::empty()
        } else {
            self.step(closed, cands.drop_last(), name) + self.hits(
                closed,
                cands.last() as int,
                name,
            )
        }
    }

    /// The directories that a query split into `segs` names: from the root, each segment
    /// replaces the candidates by the directories of that name found below them.
    pub open spec fn resolve_segs(self, closed: Seq<usize>, segs: Seq<Seq<char>>) -> Seq<usize>
        decreases segs.len(),
    {
        if segs.len() == 0 {
            seq![0usize]
        } else {
            dedup(self.step(closed, self.resolve_segs(closed, segs.drop_last()), segs.last()))
        }
    }

    /// Appends the directories named `name` in the subtree of `id`.
    fn collect(&self, closed: &Vec<usize>, id: usize, name: &Vec<char>, out: &mut Vec<usize>)
        requires
            self.wf(),
            id < self.nodes@.len(),
        ensures
            final(out)@ == old(out)@ + self.hits(closed@, id as int, name@),
        decreases self.nodes@.len() - id,
    {
        let ghost start = out@;
        if names_equal(&self.nodes[id].name, name) {
            out.push(id);
        }
        let ghost own = if self.nodes@[id as int].name@ == name@ {
            seq![id]
        } else {
            Seq::empty()
        };
        assert(out@ =~= start + own);
        if holds(closed, id) {
            return;
        }
        let n = self.nodes[id].directories.len();
        let mut k: usize = 0;
        assert(self.hits_kids(closed@, id as int, 0, name@) =~= Seq::empty());
        while k < n
            invariant
                self.wf(),
                id < self.nodes@.len(),
                n == self.nodes@[id as int].directories@.len(),
                k <= n,
                out@ == start + own + self.hits_kids(closed@, id as int, k as int, name@),
            decreases n - k,
        {
            let c = self.nodes[id].directories[k];
            proof {
                assert(self.node_ok(id as int));
                assert(self.nodes@[id as int].directories@[k as int] == c);
            }
            self.collect(closed, c, name, out);
            proof {
                assert(out@ =~= start + own + self.hits_kids(closed@, id as int, k + 1, name@));
            }
            k = k + 1;
        }
        assert(out@ =~= old(out)@ + self.hits(closed@, id as int, name@));
    }

    /// The directories that `query` names: split on '/', each part matched by exact name
    /// anywhere below the candidates so far, starting from the root, without entering a
    /// directory in `closed`. Each directory comes once, at its first match.
    pub fn resolve(&self, closed: &Vec<usize>, query: &Vec<char>) -> (r: Vec<usize>)
        requires
            self.wf(),
        ensures
            r@ == self.resolve_segs(closed@, crate::text::segments(query@)),
    {
        let segs = crate::text::split_segments(query);
        let ghost sv = crate::text::views_of(segs@);
        let mut cands: Vec<usize> = Vec::new();
        cands.push(0);
        assert(sv.subrange(0, 0) =~= Seq::<Seq<char>>::empty());
        assert(cands@ =~= self.resolve_segs(closed@, sv.subrange(0, 0)));
        let mut j: usize = 0;
        while j < segs.len()
            invariant
                self.wf(),
                sv == crate::text::views_of(segs@),
                j <= segs.len(),
                cands@ == self.resolve_segs(closed@, sv.subrange(0, j as int)),
            decreases segs.len() - j,
        {
            let seg = &segs[j];
            assert(seg@ == sv[j as int]);
            let mut next: Vec<usize> = Vec::new();
            let mut m: usize = 0;
            assert(cands@.subrange(0, 0) =~= Seq::<usize>::empty());
            assert(next@ =~= dedup(self.step(closed@, cands@.subrange(0, 0), seg@)));
            while m < cands.len()
                invariant
                    self.wf(),
                    m <= cands.len(),
                    next@ == dedup(self.step(closed@, cands@.subrange(0, m as int), seg@)),
                decreases cands.len() - m,
            {
                let c = cands[m];
                let mut found: Vec<usize> = Vec::new();
                if c < self.nodes.len() {
                    self.collect(closed, c, seg, &mut found);
                }
                assert(found@ =~= self.hits(closed@, c as int, seg@));
                let ghost base = self.step(closed@, cands@.subrange(0, m as int), seg@);
                let mut i: usize = 0;
                assert(base + found@.subrange(0, 0) =~= base);
                while i < found.len()
                    invariant
                        i <= found.len(),
                        next@ == dedup(base + found@.subrange(0, i as int)),
                    decreases found.len() - i,
                {
                    let ghost before = base + found@.subrange(0, i as int);
                    assert((base + found@.subrange(0, i + 1)).drop_last() =~= before);
                    assert((base + found@.subrange(0, i + 1)).last() == found@[i as int]);
                    push_new(&mut next, found[i]);
                    i = i + 1;
                }
                assert(found@.subrange(0, i as int) =~= found@);
                assert(cands@.subrange(0, m + 1).drop_last() =~= cands@.subrange(0, m as int));
                m = m + 1;
            }
            assert(cands@.subrange(0, m as int) =~= cands@);
            assert(sv.subrange(0, j + 1).drop_last() =~= sv.subrange(0, j as int));
            cands = next;
            j = j + 1;
        }
        assert(sv.subrange(0, j as int) =~= sv);
        cands
    }

    /// Whether directory `b` is `a` or lies below it.
    pub fn is_within(&self, a: usize, b: usize) -> (r: bool)
        ensures
            r == self.within(a as int, b as int),
    {
        let mut cur = b;
        while cur != a
            invariant
                self.within(a as int, b as int) == self.within(a as int, cur as int),
            decreases cur,
        {
            if cur >= self.nodes.len() {
                return false;
            }
            match self.nodes[cur].parent {
                Some(p) => {
                    if p < cur {
                        cur = p;
                    } else {
                        return false;
                    }
                },
                None => {
                    return false;
                },
            }
        }
        true
    }

    /// The names on the way from the root down to directory `id`, the root's own left out.
    pub open spec fn path(self, id: int) -> Seq<Seq<char>>
        decreases id,
    {
        if 0 <= id < self.nodes@.len() {
            match self.nodes@[id].parent {
                Some(p) => if (p as int) < id {
                    self.path(p as int).push(self.nodes@[id].name@)
                } else {
                    Seq::empty()
                },
                None => Seq::empty(),
            }
        } else {
            Seq::empty()
        }
    }

    /// The names on the way from the root down to directory `id`, the root's own left out.
    pub fn path_of(&self, id: usize) -> (r: Vec<Vec<char>>)
        ensures
            crate::text::views_of(r@) == self.path(id as int),
        decreases id,
    {
        if id >= self.nodes.len() {
            let r: Vec<Vec<char>> = Vec::new();
            assert(crate::text::views_of(r@) =~= Seq::empty());
            return r;
        }
        match self.nodes[id].parent {
            Some(p) => {
                if p < id {
                    let mut r = self.path_of(p);
                    let ghost prev = r@;
                    r.push(copy_name(&self.nodes[id].name));
                    assert(crate::text::views_of(r@) =~= crate::text::views_of(prev).push(
                        self.nodes@[id as int].name@,
                    ));
                    r
                } else {
                    let r: Vec<Vec<char>> = Vec::new();
                    assert(crate::text::views_of(r@) =~= Seq::empty());
                    r
                }
            },
            None => {
                let r: Vec<Vec<char>> = Vec::new();
                assert(crate::text::views_of(r@) =~= Seq::empty());
                r
            },
        }
    }
}

/// Every element of `s` is below `n`.
pub open spec fn ids_below(s: Seq<usize>, n: int) -> bool {
    forall|i: int| 0 <= i < s.len() ==> #[trigger] s[i] < n
}

proof fn lemma_ids_below_concat(a: Seq<usize>, b: Seq<usize>, n: int)
    requires
        ids_below(a, n),
        ids_below(b, n),
    ensures
        ids_below(a + b, n),
{
    assert forall|i: int| 0 <= i < (a + b).len() implies #[trigger] (a + b)[i] < n by {
        if i >= a.len() {
            assert((a + b)[i] == b[i - a.len()]);
        }
    }
}

proof fn lemma_dedup_below(s: Seq<usize>, n: int)
    requires
        ids_below(s, n),
    ensures
        ids_below(dedup(s), n),
    decreases s.len(),
{
    if s.len() > 0 {
        assert(ids_below(s.drop_last(), n)) by {
            assert forall|i: int| 0 <= i < s.drop_last().len() implies #[trigger] s.drop_last()[i] < n by {
                assert(s.drop_last()[i] == s[i]);
            }
        }
        lemma_dedup_below(s.drop_last(), n);
        assert(s.last() == s[s.len() - 1]);
    }
}

impl DirTree {
    proof fn lemma_hits_below(self, closed: Seq<usize>, id: int, name: Seq<char>)
        ensures
            ids_below(self.hits(closed, id, name), self.nodes@.len() as int),
        decreases self.nodes@.len() - id, 1int, 0int,
    {
        if 0 <= id < self.nodes@.len() {
            let own = if self.nodes@[id].name@ == name {
                seq![id as usize]
            } else {
                Seq::empty()
            };
            assert(ids_below(own, self.nodes@.len() as int));
            if !closed.contains(id as usize) {
                self.lemma_hits_kids_below(closed, id, self.nodes@[id].directories@.len() as int, name);
                lemma_ids_below_concat(
                    own,
                    self.hits_kids(closed, id, self.nodes@[id].directories@.len() as int, name),
                    self.nodes@.len() as int,
                );
            }
        }
    }

    proof fn lemma_hits_kids_below(self, closed: Seq<usize>, id: int, k: int, name: Seq<char>)
        ensures
            ids_below(self.hits_kids(closed, id, k, name), self.nodes@.len() as int),
        decreases self.nodes@.len() - id, 0int, k,
    {
        if 0 <= id < self.nodes@.len() && 0 < k <= self.nodes@[id].directories@.len() {
            self.lemma_hits_kids_below(closed, id, k - 1, name);
            let c = self.nodes@[id].directories@[k - 1] as int;
            if id < c < self.nodes@.len() {
                self.lemma_hits_below(closed, c, name);
                lemma_ids_below_concat(
                    self.hits_kids(closed, id, k - 1, name),
                    self.hits(closed, c, name),
                    self.nodes@.len() as int,
                );
            } else {
                lemma_ids_below_concat(
                    self.hits_kids(closed, id, k - 1, name),
                    Seq::empty(),
                    self.nodes@.len() as int,
                );
            }
        }
    }

    proof fn lemma_step_below(self, closed: Seq<usize>, cands: Seq<usize>, name: Seq<char>)
        ensures
            ids_below(self.step(closed, cands, name), self.nodes@.len() as int),
        decreases cands.len(),
    {
        if cands.len() > 0 {
            self.lemma_step_below(closed, cands.drop_last(), name);
            self.lemma_hits_below(closed, cands.last() as int, name);
            lemma_ids_below_concat(
                self.step(closed, cands.drop_last(), name),
                self.hits(closed, cands.last() as int, name),
                self.nodes@.len() as int,
            );
        }
    }

    /// Resolution only ever names directories of the tree.
    pub proof fn lemma_resolve_below(self, closed: Seq<usize>, segs: Seq<Seq<char>>)
        requires
            self.nodes@.len() >= 1,
        ensures
            ids_below(self.resolve_segs(closed, segs), self.nodes@.len() as int),
        decreases segs.len(),
    {
        if segs.len() > 0 {
            let prev = self.resolve_segs(closed, segs.drop_last());
            self.lemma_step_below(closed, prev, segs.last());
            lemma_dedup_below(self.step(closed, prev, segs.last()), self.nodes@.len() as int);
        }
    }
}

impl DirTree {
    /// In a well-formed tree a file name sits at one position only, and names no subdirectory.
    pub proof fn lemma_unique_file(self, dir: int, k: int)
        requires
            self.wf(),
            0 <= dir < self.nodes@.len(),
            0 <= k < self.file_names(dir).len(),
        ensures
            forall|j: int| 0 <= j < self.file_names(dir).len() && j != k ==> self.file_names(dir)[j] != self.file_names(dir)[k],
            !self.dir_names(dir).contains(self.file_names(dir)[k]),
    {
        assert(self.node_ok(dir));
        assert forall|j: int| 0 <= j < self.file_names(dir).len() && j != k implies self.file_names(dir)[j] != self.file_names(dir)[k] by {
            if j < k {
                assert(name_lt(self.file_names(dir)[j], self.file_names(dir)[k]));
                lemma_name_lt_irreflexive(self.file_names(dir)[j]);
            } else {
                assert(name_lt(self.file_names(dir)[k], self.file_names(dir)[j]));
                lemma_name_lt_irreflexive(self.file_names(dir)[k]);
            }
        }
    }
}

/// Inserting `x` where everything before is smaller and everything after is larger keeps a
/// sequence of names ascending.
pub proof fn lemma_sorted_insert(s: Seq<Seq<char>>, k: int, x: Seq<char>)
    requires
        sorted_names(s),
        0 <= k <= s.len(),
        forall|j: int| 0 <= j < k ==> name_lt(#[trigger] s[j], x),
        k < s.len() ==> name_lt(x, s[k]),
    ensures
        sorted_names(s.insert(k, x)),
        forall|j: int| k <= j < s.len() ==> name_lt(x, #[trigger] s[j]),
{
    assert forall|j: int| k <= j < s.len() implies name_lt(x, #[trigger] s[j]) by {
        if j > k {
            lemma_name_lt_transitive(x, s[k], s[j]);
        }
    }
    let t = s.insert(k, x);
    assert forall|a: int, b: int| 0 <= a < b < t.len() implies name_lt(
        #[trigger] t[a],
        #[trigger] t[b],
    ) by {
        if b < k {
        } else if b == k {
        } else if a < k {
            lemma_name_lt_transitive(s[a], x, s[b - 1]);
        } else if a == k {
        } else {
        }
    }
}

/// Removing an entry keeps a sequence of names ascending.
pub proof fn lemma_sorted_remove(s: Seq<Seq<char>>, k: int)
    requires
        sorted_names(s),
        0 <= k < s.len(),
    ensures
        sorted_names(s.remove(k)),
{
    let t = s.remove(k);
    assert forall|a: int, b: int| 0 <= a < b < t.len() implies name_lt(
        #[trigger] t[a],
        #[trigger] t[b],
    ) by {
        if a < k && b >= k {
            assert(t[b] == s[b + 1]);
        }
    }
}

/// In every directory of a well-formed tree the files and the subdirectories are sorted by
/// name, no name comes twice among them, and no file shares a name with a subdirectory. Every
/// change of the tree (`insert_file`, `remove_file`, `insert_directory`, `detach_directory`,
/// `rename_directory`) keeps the tree well-formed, so this holds after any sequence of them.
pub proof fn law_names_sorted_and_unique(t: DirTree, i: int)
    requires
        t.wf(),
        0 <= i < t.nodes@.len(),
    ensures
        sorted_names(t.file_names(i)),
        sorted_names(t.dir_names(i)),
        forall|a: int, b: int|
            0 <= a < t.file_names(i).len() && 0 <= b < t.file_names(i).len() && a != b
                ==> #[trigger] t.file_names(i)[a] != #[trigger] t.file_names(i)[b],
        forall|a: int, b: int|
            0 <= a < t.dir_names(i).len() && 0 <= b < t.dir_names(i).len() && a != b
                ==> #[trigger] t.dir_names(i)[a] != #[trigger] t.dir_names(i)[b],
        forall|a: int, b: int|
            0 <= a < t.file_names(i).len() && 0 <= b < t.dir_names(i).len()
                ==> #[trigger] t.file_names(i)[a] != #[trigger] t.dir_names(i)[b],
{
    assert(t.node_ok(i));
    assert forall|a: int, b: int|
        0 <= a < t.file_names(i).len() && 0 <= b < t.file_names(i).len() && a != b
            implies #[trigger] t.file_names(i)[a] != #[trigger] t.file_names(i)[b] by {
        if a < b {
            lemma_name_lt_asymmetric(t.file_names(i)[a], t.file_names(i)[b]);
        } else {
            lemma_name_lt_asymmetric(t.file_names(i)[b], t.file_names(i)[a]);
        }
    }
    assert forall|a: int, b: int|
        0 <= a < t.dir_names(i).len() && 0 <= b < t.dir_names(i).len() && a != b
            implies #[trigger] t.dir_names(i)[a] != #[trigger] t.dir_names(i)[b] by {
        if a < b {
            lemma_name_lt_asymmetric(t.dir_names(i)[a], t.dir_names(i)[b]);
        } else {
            lemma_name_lt_asymmetric(t.dir_names(i)[b], t.dir_names(i)[a]);
        }
    }
}

impl DirTree {
    proof fn lemma_within_le(self, a: int, b: int)
        requires
            self.within(a, b),
        ensures
            a <= b,
        decreases b,
    {
        if b != a {
            let p = self.nodes@[b].parent->0 as int;
            self.lemma_within_le(a, p);
        }
    }

    proof fn lemma_within_trans(self, a: int, b: int, c: int)
        requires
            self.within(a, b),
            self.within(b, c),
        ensures
            self.within(a, c),
        decreases c,
    {
        if c != b {
            let p = self.nodes@[c].parent->0 as int;
            self.lemma_within_trans(a, b, p);
        }
    }

    /// Two directories above the same one lie one above the other.
    proof fn lemma_within_chain(self, p: int, q: int, x: int)
        requires
            self.within(p, x),
            self.within(q, x),
        ensures
            self.within(p, q) || self.within(q, p),
        decreases x,
    {
        if x != p && x != q {
            let y = self.nodes@[x].parent->0 as int;
            self.lemma_within_chain(p, q, y);
        }
    }

    /// Everything that a walk from `id` finds lies in the subtree of `id`.
    proof fn lemma_hits_within(self, closed: Seq<usize>, id: int, name: Seq<char>, x: usize)
        requires
            self.wf(),
            id <= usize::MAX,
            self.hits(closed, id, name).contains(x),
        ensures
            self.within(id, x as int),
        decreases self.nodes@.len() - id, 1int, 0int,
    {
        if !(0 <= id < self.nodes@.len()) {
            assert(self.hits(closed, id, name).len() == 0);
        }
        let own = if self.nodes@[id].name@ == name { seq![id as usize] } else { Seq::empty() };
        if own.contains(x) {
            assert(own[0] == x);
            assert(x as int == id);
            assert(self.within(id, id));
        }
        if !own.contains(x) {
            let n = self.nodes@[id].directories@.len() as int;
            let kids = self.hits_kids(closed, id, n, name);
            assert(self.hits(closed, id, name) == own + kids);
            let j = choose|j: int| 0 <= j < self.hits(closed, id, name).len() && self.hits(closed, id, name)[j] == x;
            assert(kids.contains(x)) by {
                assert(kids[j - own.len()] == x);
            }
            self.lemma_hits_kids_within(closed, id, n, name, x);
        }
    }

    proof fn lemma_hits_kids_within(self, closed: Seq<usize>, id: int, k: int, name: Seq<char>, x: usize)
        requires
            self.wf(),
            id <= usize::MAX,
            self.hits_kids(closed, id, k, name).contains(x),
        ensures
            self.within(id, x as int),
        decreases self.nodes@.len() - id, 0int, k,
    {
        if !(0 <= id < self.nodes@.len() && 0 < k <= self.nodes@[id].directories@.len()) {
            assert(self.hits_kids(closed, id, k, name) =~= Seq::empty());
        }
        let prev = self.hits_kids(closed, id, k - 1, name);
        let c = self.nodes@[id].directories@[k - 1] as int;
        assert(self.node_ok(id));
        assert(self.children_ok(id));
        assert(id < c < self.nodes@.len());
        let whole = self.hits_kids(closed, id, k, name);
        let j = choose|j: int| 0 <= j < whole.len() && whole[j] == x;
        if j < prev.len() {
            assert(prev[j] == x);
            self.lemma_hits_kids_within(closed, id, k - 1, name, x);
        } else {
            let sub = self.hits(closed, c, name);
            assert(sub[j - prev.len()] == x);
            self.lemma_hits_within(closed, c, name, x);
            assert(self.within(id, c)) by {
                assert(self.within(id, id));
                assert(self.nodes@[c].parent == Some(id as usize)) by {
                    assert(self.node_ok(id));
                    assert(self.children_ok(id));
                    assert(self.nodes@[id].directories@[k - 1] == c);
                }
            }
            self.lemma_within_trans(id, c, x as int);
        }
    }

    /// A walk from `id`, where `a` is `id` or below it, does not find a directory that lies
    /// strictly below `a` while `a` is closed.
    proof fn lemma_closed_hides(self, closed: Seq<usize>, id: int, a: int, x: usize, name: Seq<char>)
        requires
            self.wf(),
            closed.contains(a as usize),
            0 <= a,
            self.within(id, a),
            self.within(a, x as int),
            a != x,
        ensures
            !self.hits(closed, id, name).contains(x),
        decreases self.nodes@.len() - id, 1int, 0int,
    {
        self.lemma_within_le(id, a);
        self.lemma_within_le(a, x as int);
        if 0 <= id < self.nodes@.len() {
            let own = if self.nodes@[id].name@ == name { seq![id as usize] } else { Seq::empty() };
            assert(!own.contains(x));
            if id == a {
                assert(self.hits(closed, id, name) == own);
            } else {
                let n = self.nodes@[id].directories@.len() as int;
                if !closed.contains(id as usize) {
                    self.lemma_closed_hides_kids(closed, id, n, a, x, name);
                    assert(self.hits(closed, id, name) == own + self.hits_kids(closed, id, n, name));
                    if self.hits(closed, id, name).contains(x) {
                        let j = choose|j: int| 0 <= j < self.hits(closed, id, name).len() && self.hits(closed, id, name)[j] == x;
                        assert(self.hits_kids(closed, id, n, name)[j - own.len()] == x);
                    }
                }
            }
        }
    }

    proof fn lemma_closed_hides_kids(self, closed: Seq<usize>, id: int, k: int, a: int, x: usize, name: Seq<char>)
        requires
            self.wf(),
            0 <= id < self.nodes@.len(),
            closed.contains(a as usize),
            0 <= a,
            self.within(id, a),
            id != a,
            self.within(a, x as int),
            a != x,
        ensures
            !self.hits_kids(closed, id, k, name).contains(x),
        decreases self.nodes@.len() - id, 0int, k,
    {
        if 0 < k <= self.nodes@[id].directories@.len() {
            self.lemma_closed_hides_kids(closed, id, k - 1, a, x, name);
            let prev = self.hits_kids(closed, id, k - 1, name);
            let c = self.nodes@[id].directories@[k - 1] as int;
            assert(self.node_ok(id));
            assert(self.children_ok(id));
            assert(self.nodes@[c].parent == Some(id as usize));
            let sub = self.hits(closed, c, name);
            if sub.contains(x) {
                self.lemma_hits_within(closed, c, name, x);
                self.lemma_within_chain(c, a, x as int);
                if self.within(a, c) {
                    if a != c {
                        assert(self.within(a, id));
                        self.lemma_within_le(a, id);
                        self.lemma_within_le(id, a);
                    }
                }
                assert(self.within(c, a));
                self.lemma_closed_hides(closed, c, a, x, name);
            }
            let whole = self.hits_kids(closed, id, k, name);
            assert(whole == prev + sub);
            if whole.contains(x) {
                let j = choose|j: int| 0 <= j < whole.len() && whole[j] == x;
                if j < prev.len() {
                    assert(prev[j] == x);
                } else {
                    assert(sub[j - prev.len()] == x);
                }
            }
        }
    }
}

/// A query of one name finds, from the root, no directory that lies strictly below a closed
/// directory: closing an ancestor of a match takes the match out of the result.
pub proof fn law_closed_ancestor_hides(t: DirTree, closed: Seq<usize>, a: int, x: usize, name: Seq<char>)
    requires
        t.wf(),
        0 <= a,
        closed.contains(a as usize),
        t.within(a, x as int),
        a != x,
    ensures
        !t.resolve_segs(closed, seq![name]).contains(x),
{
    t.lemma_within_le(a, x as int);
    if x as int >= t.nodes@.len() {
        assert(!t.within(a, x as int));
    }
    t.lemma_root_above(a);
    t.lemma_closed_hides(closed, 0, a, x, name);
    let segs = seq![name];
    assert(segs.drop_last() =~= Seq::<Seq<char>>::empty());
    let first = t.resolve_segs(closed, Seq::<Seq<char>>::empty());
    assert(first == seq![0usize]);
    assert(first.drop_last() =~= Seq::<usize>::empty());
    assert(first.last() == 0);
    assert(t.step(closed, first.drop_last(), name) =~= Seq::empty());
    assert(t.step(closed, first, name) == t.step(closed, first.drop_last(), name) + t.hits(closed, 0, name));
    assert(t.step(closed, first, name) =~= t.hits(closed, 0, name));
    lemma_dedup_subset(t.hits(closed, 0, name), x);
}

/// What `dedup` keeps comes from its argument.
proof fn lemma_dedup_subset(s: Seq<usize>, x: usize)
    ensures
        dedup(s).contains(x) ==> s.contains(x),
    decreases s.len(),
{
    if s.len() > 0 {
        lemma_dedup_subset(s.drop_last(), x);
        if dedup(s).contains(x) && x != s.last() {
            let d = dedup(s.drop_last());
            assert(d.contains(x)) by {
                if !d.contains(s.last()) {
                    let j = choose|j: int| 0 <= j < dedup(s).len() && dedup(s)[j] == x;
                    assert(d.push(s.last())[j] == x);
                    assert(j < d.len());
                    assert(d[j] == x);
                }
            }
            let j = choose|j: int| 0 <= j < s.drop_last().len() && s.drop_last()[j] == x;
            assert(s[j] == x);
        }
    }
}

impl DirTree {
    /// Every directory of a well-formed tree lies below the root, or is it.
    proof fn lemma_root_above(self, a: int)
        requires
            self.wf(),
            0 <= a < self.nodes@.len(),
        ensures
            self.within(0, a),
        decreases a,
    {
        assert(self.node_ok(a));
        if a != 0 {
            let p = self.nodes@[a].parent->0 as int;
            self.lemma_root_above(p);
        }
    }
}

} // verus!

//! In-memory filesystem model.
//!
//! A `FsModel` is a flat collection of absolute-or-relative path strings, each
//! naming either a directory or a text file. Its abstract value is a
//! `Map<Seq<char>, FsNodeV>`. The model maintains the structural invariant a
//! real filesystem enforces: every entry's parent is present and is a
//! directory. The initializer's creation path mutates a model through the
//! operations here, so its effect on the layout is pinned down exactly.

use vstd::prelude::*;
use crate::paths::{has_parent, parent_of, lemma_parent_shorter};

verus! {

/// Abstract filesystem node: a directory, or a file with its text content.
pub enum FsNodeV {
    Dir,
    File { content: Seq<char> },
}

/// Concrete filesystem node held by the model.
#[derive(Clone, PartialEq, Eq, Debug)]
pub enum FsNode {
    Dir,
    File { content: String },
}

impl View for FsNode {
    type V = FsNodeV;

    open spec fn view(&self) -> FsNodeV {
        match self {
            FsNode::Dir => FsNodeV::Dir,
            FsNode::File { content } => FsNodeV::File { content: content@ },
        }
    }
}

/// One named node of the model.
#[derive(Clone, PartialEq, Eq, Debug)]
pub struct FsEntry {
    path: String,
    node: FsNode,
}

/// Error raised when a creation step of the initializer cannot proceed.
#[derive(Clone, PartialEq, Eq, Debug)]
pub enum InitError {
    /// A required directory could not be created at this path.
    DirectoryCreation { path: String },
    /// The HEAD file could not be created at this path; in particular it
    /// already existed, and creation never overwrites an existing entry.
    FileCreation { path: String },
}

/// No two entries name the same path.
spec fn paths_unique(es: Seq<FsEntry>) -> bool {
    forall|i: int, j: int|
        0 <= i < es.len() && 0 <= j < es.len() && i != j ==> (#[trigger] es[i]).path@ != (
        #[trigger] es[j]).path@
}

spec fn seq_has_path(es: Seq<FsEntry>, p: Seq<char>) -> bool {
    exists|i: int| 0 <= i < es.len() && (#[trigger] es[i]).path@ == p
}

spec fn seq_index_of(es: Seq<FsEntry>, p: Seq<char>) -> int {
    choose|i: int| 0 <= i < es.len() && (#[trigger] es[i]).path@ == p
}

spec fn entries_map(es: Seq<FsEntry>) -> Map<Seq<char>, FsNodeV> {
    Map::new(|p: Seq<char>| seq_has_path(es, p), |p: Seq<char>| es[seq_index_of(es, p)].node@)
}

/// Every present path's parent is present and is a directory.
pub open spec fn parent_closed(fs: Map<Seq<char>, FsNodeV>) -> bool {
    forall|p: Seq<char>|
        #[trigger] fs.contains_key(p) && has_parent(p) ==> fs.contains_key(parent_of(p))
            && fs[parent_of(p)] is Dir
}

/// `p` may be created as a directory in `fs`: it is absent and its parent, if
/// it has one, is a present directory.
pub open spec fn parent_ok(fs: Map<Seq<char>, FsNodeV>, p: Seq<char>) -> bool {
    has_parent(p) ==> fs.contains_key(parent_of(p)) && fs[parent_of(p)] is Dir
}

/// `a` is `p` itself or one of its ancestors.
pub open spec fn in_chain(a: Seq<char>, p: Seq<char>) -> bool
    decreases p.len(),
    via in_chain_decreases
{
    a == p || (has_parent(p) && in_chain(a, parent_of(p)))
}

#[via_fn]
proof fn in_chain_decreases(a: Seq<char>, p: Seq<char>) {
    if has_parent(p) {
        lemma_parent_shorter(p);
    }
}

/// Recursive directory creation succeeds: walking up from `p`, the first
/// present ancestor (if any) is a directory.
pub open spec fn dir_all_ok(fs: Map<Seq<char>, FsNodeV>, p: Seq<char>) -> bool
    decreases p.len(),
    via dir_all_ok_decreases
{
    if fs.contains_key(p) {
        fs[p] is Dir
    } else if has_parent(p) {
        dir_all_ok(fs, parent_of(p))
    } else {
        true
    }
}

#[via_fn]
proof fn dir_all_ok_decreases(fs: Map<Seq<char>, FsNodeV>, p: Seq<char>) {
    if !fs.contains_key(p) && has_parent(p) {
        lemma_parent_shorter(p);
    }
}

/// `fs` after recursive directory creation at `p`: every absent member of
/// `p`'s ancestor chain becomes a directory.
pub open spec fn with_dirs_to(fs: Map<Seq<char>, FsNodeV>, p: Seq<char>) -> Map<
    Seq<char>,
    FsNodeV,
>
    decreases p.len(),
    via with_dirs_to_decreases
{
    if fs.contains_key(p) {
        fs
    } else if has_parent(p) {
        with_dirs_to(fs, parent_of(p)).insert(p, FsNodeV::Dir)
    } else {
        fs.insert(p, FsNodeV::Dir)
    }
}

#[via_fn]
proof fn with_dirs_to_decreases(fs: Map<Seq<char>, FsNodeV>, p: Seq<char>) {
    if !fs.contains_key(p) && has_parent(p) {
        lemma_parent_shorter(p);
    }
}

/// Chain membership never lengthens a path.
pub proof fn lemma_in_chain_len(a: Seq<char>, p: Seq<char>)
    requires
        in_chain(a, p),
    ensures
        a.len() <= p.len(),
    decreases p.len(),
{
    if a != p {
        lemma_parent_shorter(p);
        lemma_in_chain_len(a, parent_of(p));
    }
}

/// What recursive directory creation adds and keeps: old entries survive
/// unchanged, additions are chain directories, and on success the target
/// itself is a present directory.
pub proof fn lemma_with_dirs_to_frame(fs: Map<Seq<char>, FsNodeV>, p: Seq<char>)
    ensures
        forall|k: Seq<char>| #[trigger]
            fs.contains_key(k) ==> with_dirs_to(fs, p).contains_key(k) && with_dirs_to(fs, p)[k]
                == fs[k],
        forall|k: Seq<char>| #[trigger]
            with_dirs_to(fs, p).contains_key(k) ==> fs.contains_key(k) || (in_chain(k, p)
                && with_dirs_to(fs, p)[k] is Dir),
        dir_all_ok(fs, p) ==> with_dirs_to(fs, p).contains_key(p) && with_dirs_to(fs, p)[p] is Dir,
    decreases p.len(),
{
    if fs.contains_key(p) {
    } else if has_parent(p) {
        lemma_parent_shorter(p);
        lemma_with_dirs_to_frame(fs, parent_of(p));
        assert forall|k: Seq<char>| #[trigger]
            with_dirs_to(fs, p).contains_key(k) implies fs.contains_key(k) || (in_chain(k, p)
            && with_dirs_to(fs, p)[k] is Dir) by {
            if k != p {
                assert(with_dirs_to(fs, parent_of(p)).contains_key(k));
            }
        }
    } else {
    }
}

/// In a parent-closed filesystem, a present path's whole ancestor chain is
/// present.
pub proof fn lemma_chain_present(fs: Map<Seq<char>, FsNodeV>, p: Seq<char>)
    requires
        parent_closed(fs),
        fs.contains_key(p),
    ensures
        forall|k: Seq<char>| #[trigger] in_chain(k, p) ==> fs.contains_key(k),
    decreases p.len(),
{
    if has_parent(p) {
        lemma_parent_shorter(p);
        lemma_chain_present(fs, parent_of(p));
    }
    assert forall|k: Seq<char>| #[trigger] in_chain(k, p) implies fs.contains_key(k) by {
        if k != p {
            assert(has_parent(p) && in_chain(k, parent_of(p)));
        }
    }
}

/// Starting from a parent-closed filesystem, recursive directory creation
/// leaves the target's whole ancestor chain present.
pub proof fn lemma_with_dirs_to_chain(fs: Map<Seq<char>, FsNodeV>, p: Seq<char>)
    requires
        parent_closed(fs),
    ensures
        forall|k: Seq<char>| #[trigger] in_chain(k, p) ==> with_dirs_to(fs, p).contains_key(k),
    decreases p.len(),
{
    if fs.contains_key(p) {
        lemma_chain_present(fs, p);
    } else if has_parent(p) {
        lemma_parent_shorter(p);
        lemma_with_dirs_to_chain(fs, parent_of(p));
        assert forall|k: Seq<char>| #[trigger]
            in_chain(k, p) implies with_dirs_to(fs, p).contains_key(k) by {
            if k != p {
                assert(in_chain(k, parent_of(p)));
                assert(with_dirs_to(fs, parent_of(p)).contains_key(k));
            }
        }
    }
}

/// The filesystem model: a well-formed set of named nodes.
#[derive(Clone, PartialEq, Eq, Debug)]
pub struct FsModel {
    entries: Vec<FsEntry>,
}

impl View for FsModel {
    type V = Map<Seq<char>, FsNodeV>;

    closed spec fn view(&self) -> Map<Seq<char>, FsNodeV> {
        entries_map(self.entries@)
    }
}

proof fn lemma_entries_map_index(es: Seq<FsEntry>, i: int)
    requires
        paths_unique(es),
        0 <= i < es.len(),
    ensures
        entries_map(es).contains_key(es[i].path@),
        entries_map(es)[es[i].path@] == es[i].node@,
{
    let p = es[i].path@;
    assert(seq_has_path(es, p));
    let j = seq_index_of(es, p);
    assert(0 <= j < es.len() && es[j].path@ == p);
    assert(j == i);
}

proof fn lemma_entries_map_absent(es: Seq<FsEntry>, p: Seq<char>)
    requires
        forall|i: int| 0 <= i < es.len() ==> (#[trigger] es[i]).path@ != p,
    ensures
        !entries_map(es).contains_key(p),
{
}

proof fn lemma_entries_map_push(es: Seq<FsEntry>, e: FsEntry)
    requires
        paths_unique(es),
        !seq_has_path(es, e.path@),
    ensures
        paths_unique(es.push(e)),
        entries_map(es.push(e)) == entries_map(es).insert(e.path@, e.node@),
{
    let es2 = es.push(e);
    assert forall|i: int, j: int|
        0 <= i < es2.len() && 0 <= j < es2.len() && i != j implies (#[trigger] es2[i]).path@ != (
    #[trigger] es2[j]).path@ by {
        if i < es.len() && j < es.len() {
            assert(es2[i] == es[i] && es2[j] == es[j]);
        } else if i < es.len() {
            assert(es2[j] == e && es2[i] == es[i]);
        } else {
            assert(es2[i] == e && es2[j] == es[j]);
        }
    }
    let m1 = entries_map(es2);
    let m2 = entries_map(es).insert(e.path@, e.node@);
    assert forall|p: Seq<char>| #[trigger] m1.contains_key(p) implies m2.contains_key(p) && m1[p]
        == m2[p] by {
        let i = seq_index_of(es2, p);
        assert(0 <= i < es2.len() && es2[i].path@ == p);
        if i < es.len() {
            assert(es2[i] == es[i]);
            lemma_entries_map_index(es, i);
            assert(p != e.path@);
        } else {
            assert(es2[i] == e);
        }
    }
    assert forall|p: Seq<char>| #[trigger] m2.contains_key(p) implies m1.contains_key(p) by {
        if p == e.path@ {
            assert(es2[es.len() as int].path@ == p);
        } else {
            let i = seq_index_of(es, p);
            assert(0 <= i < es.len() && es[i].path@ == p);
            assert(es2[i].path@ == p);
        }
    }
    assert(m1 =~= m2);
}

proof fn lemma_entries_map_remove(es: Seq<FsEntry>, i: int)
    requires
        paths_unique(es),
        0 <= i < es.len(),
    ensures
        paths_unique(es.remove(i)),
        entries_map(es.remove(i)) == entries_map(es).remove(es[i].path@),
{
    let es2 = es.remove(i);
    assert forall|a: int, b: int|
        0 <= a < es2.len() && 0 <= b < es2.len() && a != b implies (#[trigger] es2[a]).path@ != (
    #[trigger] es2[b]).path@ by {
        let a0 = if a < i { a } else { a + 1 };
        let b0 = if b < i { b } else { b + 1 };
        assert(es2[a] == es[a0] && es2[b] == es[b0]);
    }
    let m1 = entries_map(es2);
    let m2 = entries_map(es).remove(es[i].path@);
    assert forall|p: Seq<char>| #[trigger] m1.contains_key(p) implies m2.contains_key(p) && m1[p]
        == m2[p] by {
        let a = seq_index_of(es2, p);
        assert(0 <= a < es2.len() && es2[a].path@ == p);
        let a0 = if a < i { a } else { a + 1 };
        assert(es2[a] == es[a0]);
        lemma_entries_map_index(es, a0);
        assert(p != es[i].path@);
    }
    assert forall|p: Seq<char>| #[trigger] m2.contains_key(p) implies m1.contains_key(p) by {
        let a = seq_index_of(es, p);
        assert(0 <= a < es.len() && es[a].path@ == p);
        assert(a != i);
        let a2 = if a < i { a } else { a - 1 };
        assert(es2[a2] == es[a]);
        assert(seq_has_path(es2, p));
    }
    assert(m1 =~= m2);
}

impl FsModel {
    /// Representation invariant: unique paths, and every entry's parent is a
    /// present directory.
    pub closed spec fn wf(&self) -> bool {
        &&& paths_unique(self.entries@)
        &&& parent_closed(self@)
    }

    /// A well-formed model's abstract map is parent-closed.
    pub proof fn lemma_wf_parent_closed(&self)
        requires
            self.wf(),
        ensures
            parent_closed(self@),
    {
    }

    /// The empty filesystem.
    pub fn new() -> (r: FsModel)
        ensures
            r.wf(),
            r@ == Map::<Seq<char>, FsNodeV>::empty(),
    {
        let r = FsModel { entries: Vec::new() };
        proof {
            assert(r@ =~= Map::<Seq<char>, FsNodeV>::empty());
        }
        r
    }

    fn find_index(&self, path: &str) -> (r: Option<usize>)
        ensures
            (r matches Some(i) ==> i < self.entries@.len() && self.entries@[i as int].path@
                == path@),
            r is None ==> forall|i: int|
                0 <= i < self.entries@.len() ==> (#[trigger] self.entries@[i]).path@ != path@,
    {
        let goal: String = path.to_owned();
        let n: usize = self.entries.len();
        let mut i: usize = 0;
        while i < n
            invariant
                i <= n,
                n == self.entries@.len(),
                goal@ == path@,
                forall|k: int| 0 <= k < i ==> (#[trigger] self.entries@[k]).path@ != path@,
            decreases n - i,
        {
            if self.entries[i].path == goal {
                return Some(i);
            }
            i = i + 1;
        }
        None
    }

    /// Whether any entry (directory or file) is present at `path`.
    pub fn contains_path(&self, path: &str) -> (r: bool)
        requires
            self.wf(),
        ensures
            r == self@.contains_key(path@),
    {
        match self.find_index(path) {
            Some(i) => {
                proof {
                    lemma_entries_map_index(self.entries@, i as int);
                }
                true
            },
            None => {
                proof {
                    lemma_entries_map_absent(self.entries@, path@);
                }
                false
            },
        }
    }

    /// Whether a directory is present at `path`.
    pub fn is_dir(&self, path: &str) -> (r: bool)
        requires
            self.wf(),
        ensures
            r == (self@.contains_key(path@) && self@[path@] is Dir),
    {
        match self.find_index(path) {
            Some(i) => {
                proof {
                    lemma_entries_map_index(self.entries@, i as int);
                }
                match self.entries[i].node {
                    FsNode::Dir => true,
                    FsNode::File { .. } => false,
                }
            },
            None => {
                proof {
                    lemma_entries_map_absent(self.entries@, path@);
                }
                false
            },
        }
    }

    /// Whether a file is present at `path`.
    pub fn is_file(&self, path: &str) -> (r: bool)
        requires
            self.wf(),
        ensures
            r == (self@.contains_key(path@) && self@[path@] is File),
    {
        match self.find_index(path) {
            Some(i) => {
                proof {
                    lemma_entries_map_index(self.entries@, i as int);
                }
                match self.entries[i].node {
                    FsNode::Dir => false,
                    FsNode::File { .. } => true,
                }
            },
            None => {
                proof {
                    lemma_entries_map_absent(self.entries@, path@);
                }
                false
            },
        }
    }

    /// Content of the file at `path`, or `None` if no file is there.
    pub fn read_file(&self, path: &str) -> (r: Option<String>)
        requires
            self.wf(),
        ensures
            (r matches Some(c) ==> self@.contains_key(path@) && self@[path@] == (FsNodeV::File {
                content: c@,
            })),
            r is None ==> !(self@.contains_key(path@) && self@[path@] is File),
    {
        match self.find_index(path) {
            Some(i) => {
                proof {
                    lemma_entries_map_index(self.entries@, i as int);
                }
                match &self.entries[i].node {
                    FsNode::Dir => None,
                    FsNode::File { content } => Some(content.clone()),
                }
            },
            None => {
                proof {
                    lemma_entries_map_absent(self.entries@, path@);
                }
                None
            },
        }
    }

    fn push_node(&mut self, path: &str, node: FsNode)
        requires
            old(self).wf(),
            !old(self)@.contains_key(path@),
            parent_ok(old(self)@, path@),
        ensures
            final(self).wf(),
            final(self)@ == old(self)@.insert(path@, node@),
    {
        proof {
            if seq_has_path(self.entries@, path@) {
                let i = seq_index_of(self.entries@, path@);
                lemma_entries_map_index(self.entries@, i);
            }
        }
        let ghost old_es = self.entries@;
        let ghost n = node@;
        let entry = FsEntry { path: path.to_owned(), node };
        self.entries.push(entry);
        proof {
            lemma_entries_map_push(old_es, FsEntry { path: entry.path, node: entry.node });
            assert(self@ == old(self)@.insert(path@, n));
            assert forall|p: Seq<char>| #[trigger]
                self@.contains_key(p) && has_parent(p) implies self@.contains_key(parent_of(p))
                && self@[parent_of(p)] is Dir by {
                if p == path@ {
                    if has_parent(p) {
                        assert(old(self)@.contains_key(parent_of(p)));
                        assert(parent_of(p) != path@);
                    }
                } else {
                    assert(old(self)@.contains_key(p));
                    if has_parent(p) {
                        assert(old(self)@.contains_key(parent_of(p)));
                        assert(old(self)@[parent_of(p)] is Dir);
                        if parent_of(p) == path@ {
                            assert(false);
                        }
                    }
                }
            }
        }
    }

    /// Create a directory at `path`. Fails if anything is already there or
    /// the parent is missing or not a directory; the model is unchanged on
    /// failure.
    pub fn create_dir(&mut self, path: &str) -> (r: Result<(), InitError>)
        requires
            old(self).wf(),
        ensures
            final(self).wf(),
            (r is Ok) <==> (!old(self)@.contains_key(path@) && parent_ok(old(self)@, path@)),
            r is Ok ==> final(self)@ == old(self)@.insert(path@, FsNodeV::Dir),
            r is Err ==> final(self)@ == old(self)@ && (r matches Err(
                InitError::DirectoryCreation { path: q },
            ) && q@ == path@),
    {
        if self.contains_path(path) {
            return Err(InitError::DirectoryCreation { path: path.to_owned() });
        }
        match crate::paths::parent_of_path(path) {
            Some(par) => {
                if !self.is_dir(par.as_str()) {
                    return Err(InitError::DirectoryCreation { path: path.to_owned() });
                }
            },
            None => {},
        }
        self.push_node(path, FsNode::Dir);
        Ok(())
    }

    /// Create a file with the given content at `path`. Creation-only: fails
    /// if anything is already there, or if the parent is missing or not a
    /// directory; the model is unchanged on failure.
    pub fn create_file_new(&mut self, path: &str, content: &str) -> (r: Result<(), InitError>)
        requires
            old(self).wf(),
        ensures
            final(self).wf(),
            (r is Ok) <==> (!old(self)@.contains_key(path@) && parent_ok(old(self)@, path@)),
            r is Ok ==> final(self)@ == old(self)@.insert(
                path@,
                (FsNodeV::File { content: content@ }),
            ),
            r is Err ==> final(self)@ == old(self)@ && (r matches Err(
                InitError::FileCreation { path: q },
            ) && q@ == path@),
    {
        if self.contains_path(path) {
            return Err(InitError::FileCreation { path: path.to_owned() });
        }
        match crate::paths::parent_of_path(path) {
            Some(par) => {
                if !self.is_dir(par.as_str()) {
                    return Err(InitError::FileCreation { path: path.to_owned() });
                }
            },
            None => {},
        }
        self.push_node(path, FsNode::File { content: content.to_owned() });
        Ok(())
    }

    /// Remove the file at `path`, reporting whether one was removed.
    /// Directories are never removed.
    pub fn remove_file(&mut self, path: &str) -> (r: bool)
        requires
            old(self).wf(),
        ensures
            final(self).wf(),
            r == (old(self)@.contains_key(path@) && old(self)@[path@] is File),
            r ==> final(self)@ == old(self)@.remove(path@),
            !r ==> final(self)@ == old(self)@,
    {
        match self.find_index(path) {
            Some(i) => {
                proof {
                    lemma_entries_map_index(self.entries@, i as int);
                }
                match self.entries[i].node {
                    FsNode::Dir => false,
                    FsNode::File { .. } => {
                        let ghost old_es = self.entries@;
                        self.entries.remove(i);
                        proof {
                            lemma_entries_map_remove(old_es, i as int);
                            assert forall|p: Seq<char>| #[trigger]
                                self@.contains_key(p) && has_parent(
                                p,
                            ) implies self@.contains_key(parent_of(p)) && self@[parent_of(
                                p,
                            )] is Dir by {
                                assert(old(self)@.contains_key(p));
                                assert(old(self)@.contains_key(parent_of(p)));
                                assert(old(self)@[parent_of(p)] is Dir);
                                assert(parent_of(p) != path@);
                            }
                        }
                        true
                    },
                }
            },
            None => {
                proof {
                    lemma_entries_map_absent(self.entries@, path@);
                }
                false
            },
        }
    }

    /// Create a directory at `path` together with every missing ancestor,
    /// like recursive directory creation on a real filesystem. Entries that
    /// already exist are kept; a file anywhere on the chain is a failure.
    /// On failure the ancestors created before the obstruction remain.
    pub fn create_dir_all(&mut self, path: &str) -> (r: Result<(), InitError>)
        requires
            old(self).wf(),
        ensures
            final(self).wf(),
            (r is Ok) <==> dir_all_ok(old(self)@, path@),
            r is Ok ==> final(self)@ == with_dirs_to(old(self)@, path@)
                && final(self)@.contains_key(path@) && final(self)@[path@] is Dir,
            forall|k: Seq<char>| #[trigger]
                old(self)@.contains_key(k) ==> final(self)@.contains_key(k) && final(self)@[k]
                    == old(self)@[k],
            forall|k: Seq<char>| #[trigger]
                final(self)@.contains_key(k) && !old(self)@.contains_key(k)
                    ==> final(self)@[k] is Dir && in_chain(k, path@),
            r is Err ==> (r matches Err(InitError::DirectoryCreation { .. })),
        decreases path@.len(),
    {
        if self.contains_path(path) {
            if self.is_dir(path) {
                return Ok(());
            } else {
                return Err(InitError::DirectoryCreation { path: path.to_owned() });
            }
        }
        match crate::paths::parent_of_path(path) {
            Some(par) => {
                proof {
                    lemma_parent_shorter(path@);
                }
                let res = self.create_dir_all(par.as_str());
                if let Err(e) = res {
                    return Err(e);
                }
                proof {
                    lemma_in_chain_len(path@, path@);
                    assert forall|k: Seq<char>| #[trigger]
                        self@.contains_key(k) implies k.len() < path@.len() || old(
                        self,
                    )@.contains_key(k) by {
                        if !old(self)@.contains_key(k) {
                            lemma_in_chain_len(k, parent_of(path@));
                        }
                    }
                    assert(!self@.contains_key(path@));
                }
                let res2 = self.create_dir(path);
                proof {
                    assert(res2 is Ok);
                }
                res2
            },
            None => {
                let res2 = self.create_dir(path);
                proof {
                    assert(res2 is Ok);
                }
                res2
            },
        }
    }
}

} // verus!

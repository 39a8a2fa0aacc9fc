//! The repository initializer.
//!
//! Resolves where the metadata directory of a target lives, decides between
//! the fresh and the already-initialized case, and materializes the metadata
//! substructure (`objects/`, `refs/`, `refs/heads/`) together with the `HEAD`
//! symbolic reference, exactly once per repository path.

use vstd::prelude::*;
use vstd::string::*;
use crate::paths::{joined, str_eq, join_path, lemma_joined_child, has_parent, parent_of};
use crate::fs::{
    FsModel, FsNodeV, InitError, parent_closed, dir_all_ok, with_dirs_to, in_chain,
    lemma_in_chain_len, lemma_with_dirs_to_frame, lemma_with_dirs_to_chain,
};

verus! {

/// Name of the metadata directory that marks an initialized repository.
pub open spec fn repo_dir_name() -> Seq<char> {
    ".rgit"@
}

/// Exact content of the initial `HEAD` symbolic reference: no trailing
/// newline, default branch `master`.
pub open spec fn head_ref_content() -> Seq<char> {
    "ref: refs/heads/master"@
}

/// The repository path a target specifier denotes: the sentinel `.` names the
/// working directory itself, anything else is joined below it.
pub open spec fn resolved_repo_root(cwd: Seq<char>, target: Seq<char>) -> Seq<char> {
    if target == "."@ {
        cwd
    } else {
        joined(cwd, target)
    }
}

/// Where the metadata directory of a target lives.
pub open spec fn metadata_dir_spec(cwd: Seq<char>, target: Seq<char>) -> Seq<char> {
    joined(resolved_repo_root(cwd, target), repo_dir_name())
}

/// The object-storage root inside the metadata directory.
pub open spec fn objects_dir_spec(meta: Seq<char>) -> Seq<char> {
    joined(meta, "objects"@)
}

/// The references root inside the metadata directory.
pub open spec fn refs_dir_spec(meta: Seq<char>) -> Seq<char> {
    joined(meta, "refs"@)
}

/// The branch-heads root, nested under the references root.
pub open spec fn heads_dir_spec(meta: Seq<char>) -> Seq<char> {
    joined(refs_dir_spec(meta), "heads"@)
}

/// The `HEAD` pointer file inside the metadata directory.
pub open spec fn head_path_spec(meta: Seq<char>) -> Seq<char> {
    joined(meta, "HEAD"@)
}

/// The filesystem after a fresh initialization rooted at `meta`: the metadata
/// directory with every missing ancestor, the three substructure directories,
/// and the `HEAD` pointer file.
pub open spec fn fresh_layout(fs: Map<Seq<char>, FsNodeV>, meta: Seq<char>) -> Map<
    Seq<char>,
    FsNodeV,
> {
    with_dirs_to(fs, meta).insert(objects_dir_spec(meta), FsNodeV::Dir).insert(
        refs_dir_spec(meta),
        FsNodeV::Dir,
    ).insert(heads_dir_spec(meta), FsNodeV::Dir).insert(
        head_path_spec(meta),
        (FsNodeV::File { content: head_ref_content() }),
    )
}

proof fn lemma_component_shapes()
    ensures
        "objects"@.len() == 7,
        forall|k: int| 0 <= k < "objects"@.len() ==> "objects"@[k] != '/',
        "refs"@.len() == 4,
        forall|k: int| 0 <= k < "refs"@.len() ==> "refs"@[k] != '/',
        "heads"@.len() == 5,
        forall|k: int| 0 <= k < "heads"@.len() ==> "heads"@[k] != '/',
        "HEAD"@.len() == 4,
        forall|k: int| 0 <= k < "HEAD"@.len() ==> "HEAD"@[k] != '/',
        "refs"@[0] == 'r',
        "HEAD"@[0] == 'H',
{
    reveal_strlit("objects");
    reveal_strlit("refs");
    reveal_strlit("heads");
    reveal_strlit("HEAD");
    assert forall|k: int| 0 <= k < "objects"@.len() implies "objects"@[k] != '/' by {
        if k == 0 {
        } else if k == 1 {
        } else if k == 2 {
        } else if k == 3 {
        } else if k == 4 {
        } else if k == 5 {
        } else {
            assert(k == 6);
        }
    }
    assert forall|k: int| 0 <= k < "refs"@.len() implies "refs"@[k] != '/' by {
        if k == 0 {
        } else if k == 1 {
        } else if k == 2 {
        } else {
            assert(k == 3);
        }
    }
    assert forall|k: int| 0 <= k < "heads"@.len() implies "heads"@[k] != '/' by {
        if k == 0 {
        } else if k == 1 {
        } else if k == 2 {
        } else if k == 3 {
        } else {
            assert(k == 4);
        }
    }
    assert forall|k: int| 0 <= k < "HEAD"@.len() implies "HEAD"@[k] != '/' by {
        if k == 0 {
        } else if k == 1 {
        } else if k == 2 {
        } else {
            assert(k == 3);
        }
    }
}

/// The metadata directory path is never empty and never ends in a separator,
/// whatever the working directory and target are.
pub proof fn lemma_metadata_dir_shape(cwd: Seq<char>, target: Seq<char>)
    ensures
        metadata_dir_spec(cwd, target).len() > 0,
        metadata_dir_spec(cwd, target)[metadata_dir_spec(cwd, target).len() - 1] != '/',
{
    reveal_strlit(".rgit");
    let rel = repo_dir_name();
    assert(rel.len() == 5 && rel[0] == '.' && rel[4] == 't');
    let root = resolved_repo_root(cwd, target);
    let m = metadata_dir_spec(cwd, target);
    if rel.len() > 0 && rel[0] == '/' {
        assert(false);
    } else if root.len() > 0 && root[root.len() - 1] == '/' {
        assert(m == root + rel);
        assert(m[m.len() - 1] == rel[4]);
    } else {
        assert(m == root + seq!['/'] + rel);
        assert(m[m.len() - 1] == rel[4]);
    }
}

/// Shape of the four layout members below a metadata directory: where each
/// one's parent points, their lengths, and their pairwise distinctness.
pub proof fn lemma_layout_children(meta: Seq<char>)
    requires
        meta.len() > 0,
        meta[meta.len() - 1] != '/',
    ensures
        has_parent(objects_dir_spec(meta)) && parent_of(objects_dir_spec(meta)) == meta,
        has_parent(refs_dir_spec(meta)) && parent_of(refs_dir_spec(meta)) == meta,
        has_parent(heads_dir_spec(meta)) && parent_of(heads_dir_spec(meta)) == refs_dir_spec(meta),
        has_parent(head_path_spec(meta)) && parent_of(head_path_spec(meta)) == meta,
        objects_dir_spec(meta).len() == meta.len() + 8,
        refs_dir_spec(meta).len() == meta.len() + 5,
        heads_dir_spec(meta).len() == meta.len() + 11,
        head_path_spec(meta).len() == meta.len() + 5,
        refs_dir_spec(meta) != head_path_spec(meta),
{
    lemma_component_shapes();
    lemma_joined_child(meta, "objects"@);
    lemma_joined_child(meta, "refs"@);
    lemma_joined_child(meta, "HEAD"@);
    let refs = refs_dir_spec(meta);
    assert(refs[refs.len() - 1] == "refs"@[3]);
    assert(refs[refs.len() - 1] != '/');
    lemma_joined_child(refs, "heads"@);
    let head = head_path_spec(meta);
    assert(refs == meta + seq!['/'] + "refs"@);
    assert(head == meta + seq!['/'] + "HEAD"@);
    assert(refs[meta.len() as int + 1] == "refs"@[0]);
    assert(head[meta.len() as int + 1] == "HEAD"@[0]);
    assert(refs != head);
}

/// Executable form of `head_ref_content`.
pub fn head_file_content() -> (r: String)
    ensures
        r@ == head_ref_content(),
{
    String::from_str("ref: refs/heads/master")
}

/// Resolve the metadata directory path for a target specifier against a
/// working directory. Pure: no filesystem is consulted or touched.
pub fn resolve_metadata_dir(cwd: &str, target: &str) -> (r: String)
    ensures
        r@ == metadata_dir_spec(cwd@, target@),
{
    if str_eq(target, ".") {
        join_path(cwd, ".rgit")
    } else {
        let root = join_path(cwd, target);
        join_path(root.as_str(), ".rgit")
    }
}

/// All paths a fresh initialization creates, in creation order, together with
/// the `HEAD` content. The unverified shell replays exactly these against the
/// real filesystem.
pub struct InitPlan {
    pub metadata_dir: String,
    pub objects_dir: String,
    pub refs_dir: String,
    pub heads_dir: String,
    pub head_path: String,
    pub head_content: String,
}

impl InitPlan {
    /// The plan's fields are exactly the resolved layout paths of the target.
    pub open spec fn wf_for(&self, cwd: Seq<char>, target: Seq<char>) -> bool {
        &&& self.metadata_dir@ == metadata_dir_spec(cwd, target)
        &&& self.objects_dir@ == objects_dir_spec(metadata_dir_spec(cwd, target))
        &&& self.refs_dir@ == refs_dir_spec(metadata_dir_spec(cwd, target))
        &&& self.heads_dir@ == heads_dir_spec(metadata_dir_spec(cwd, target))
        &&& self.head_path@ == head_path_spec(metadata_dir_spec(cwd, target))
        &&& self.head_content@ == head_ref_content()
    }
}

/// Resolve a target specifier into the full creation plan.
pub fn creation_plan(cwd: &str, target: &str) -> (r: InitPlan)
    ensures
        r.wf_for(cwd@, target@),
{
    let metadata_dir = resolve_metadata_dir(cwd, target);
    let objects_dir = join_path(metadata_dir.as_str(), "objects");
    let refs_dir = join_path(metadata_dir.as_str(), "refs");
    let heads_dir = join_path(refs_dir.as_str(), "heads");
    let head_path = join_path(metadata_dir.as_str(), "HEAD");
    let head_content = head_file_content();
    InitPlan { metadata_dir, objects_dir, refs_dir, heads_dir, head_path, head_content }
}

/// Outcome of a successful initialization call.
#[derive(Clone, PartialEq, Eq, Debug)]
pub enum InitOutcome {
    /// The metadata directory was created, with its substructure and `HEAD`.
    Fresh { metadata_dir: String },
    /// The metadata directory already existed; nothing was inspected,
    /// repaired, or touched.
    Existing { metadata_dir: String },
}

/// Everything `initialize` guarantees, stated over the filesystem before
/// (`fs_old`) and after (`fs_new`) and the resolved metadata directory `m`:
/// an existing metadata directory is reported and left alone; an absent one
/// with an unobstructed ancestor chain yields exactly the fresh layout; an
/// obstructed chain fails, leaving old entries untouched and at most some
/// ancestor directories behind (no rollback).
pub open spec fn init_post(
    r: Result<InitOutcome, InitError>,
    fs_old: Map<Seq<char>, FsNodeV>,
    fs_new: Map<Seq<char>, FsNodeV>,
    m: Seq<char>,
) -> bool {
    &&& fs_old.contains_key(m) ==> (r matches Ok(InitOutcome::Existing { metadata_dir })
        && metadata_dir@ == m && fs_new == fs_old)
    &&& (!fs_old.contains_key(m) && dir_all_ok(fs_old, m)) ==> (r matches Ok(
        InitOutcome::Fresh { metadata_dir },
    ) && metadata_dir@ == m && fs_new == fresh_layout(fs_old, m))
    &&& (!fs_old.contains_key(m) && !dir_all_ok(fs_old, m)) ==> {
        &&& r matches Err(InitError::DirectoryCreation { .. })
        &&& forall|k: Seq<char>| #[trigger]
            fs_old.contains_key(k) ==> fs_new.contains_key(k) && fs_new[k] == fs_old[k]
        &&& forall|k: Seq<char>| #[trigger]
            fs_new.contains_key(k) && !fs_old.contains_key(k) ==> fs_new[k] is Dir && in_chain(
                k,
                m,
            )
    }
}

/// Ensure a repository metadata layout exists for `target`, resolved against
/// the working directory `cwd`. If the metadata directory already exists (as
/// any entry), this is a no-op reporting `Existing`; otherwise the directory,
/// its missing ancestors, the substructure and the `HEAD` pointer are created
/// and `Fresh` is reported. Failure is possible only when a file obstructs
/// the metadata directory's ancestor chain.
pub fn initialize(fs: &mut FsModel, cwd: &str, target: &str) -> (r: Result<InitOutcome, InitError>)
    requires
        old(fs).wf(),
    ensures
        final(fs).wf(),
        init_post(r, old(fs)@, final(fs)@, metadata_dir_spec(cwd@, target@)),
{
    let ghost m = metadata_dir_spec(cwd@, target@);
    let ghost fs0 = fs@;
    let plan = creation_plan(cwd, target);
    if fs.contains_path(plan.metadata_dir.as_str()) {
        return Ok(InitOutcome::Existing { metadata_dir: plan.metadata_dir });
    }
    proof {
        fs.lemma_wf_parent_closed();
        lemma_metadata_dir_shape(cwd@, target@);
        lemma_layout_children(m);
        // None of the four layout members can pre-exist: each would force its
        // parent chain, and so the metadata directory itself, to be present.
        assert(!fs0.contains_key(objects_dir_spec(m)));
        assert(!fs0.contains_key(refs_dir_spec(m)));
        assert(!fs0.contains_key(heads_dir_spec(m)));
        assert(!fs0.contains_key(head_path_spec(m)));
    }
    let r1 = fs.create_dir_all(plan.metadata_dir.as_str());
    if let Err(e) = r1 {
        return Err(e);
    }
    proof {
        assert forall|k: Seq<char>| #[trigger]
            fs@.contains_key(k) implies fs0.contains_key(k) || k.len() <= m.len() by {
            if !fs0.contains_key(k) {
                lemma_in_chain_len(k, m);
            }
        }
        assert(!fs@.contains_key(objects_dir_spec(m)));
    }
    let ghost fs1 = fs@;
    let r2 = fs.create_dir(plan.objects_dir.as_str());
    proof {
        assert(r2 is Ok);
        assert(fs@ == fs1.insert(objects_dir_spec(m), FsNodeV::Dir));
        assert(!fs1.contains_key(refs_dir_spec(m)));
        assert(!fs@.contains_key(refs_dir_spec(m)));
        assert(fs@.contains_key(m) && fs@[m] is Dir);
    }
    let r3 = fs.create_dir(plan.refs_dir.as_str());
    proof {
        assert(r3 is Ok);
        assert(fs@ == fs1.insert(objects_dir_spec(m), FsNodeV::Dir).insert(
            refs_dir_spec(m),
            FsNodeV::Dir,
        ));
        assert(!fs1.contains_key(heads_dir_spec(m)));
        assert(!fs@.contains_key(heads_dir_spec(m)));
        assert(fs@.contains_key(refs_dir_spec(m)) && fs@[refs_dir_spec(m)] is Dir);
    }
    let r4 = fs.create_dir(plan.heads_dir.as_str());
    proof {
        assert(r4 is Ok);
        assert(!fs1.contains_key(head_path_spec(m)));
        assert(!fs@.contains_key(head_path_spec(m)));
        assert(fs@.contains_key(m) && fs@[m] is Dir);
    }
    let r5 = fs.create_file_new(plan.head_path.as_str(), plan.head_content.as_str());
    proof {
        assert(r5 is Ok);
        assert(fs@ == fresh_layout(fs0, m));
    }
    Ok(InitOutcome::Fresh { metadata_dir: plan.metadata_dir })
}

/// Layout completeness and content exactness: after a fresh initialization,
/// the metadata directory, `objects`, `refs` and `refs/heads` are present
/// directories, `HEAD` is a file holding exactly the initial symbolic
/// reference, nothing else appears beyond the missing ancestors of the
/// metadata directory, and every pre-existing entry is untouched.
pub proof fn lemma_fresh_layout_complete(
    fs: Map<Seq<char>, FsNodeV>,
    cwd: Seq<char>,
    target: Seq<char>,
)
    requires
        parent_closed(fs),
        !fs.contains_key(metadata_dir_spec(cwd, target)),
    ensures
        ({
            let m = metadata_dir_spec(cwd, target);
            let layout = fresh_layout(fs, m);
            &&& layout.contains_key(m) && layout[m] is Dir
            &&& layout.contains_key(objects_dir_spec(m)) && layout[objects_dir_spec(m)] is Dir
            &&& layout.contains_key(refs_dir_spec(m)) && layout[refs_dir_spec(m)] is Dir
            &&& layout.contains_key(heads_dir_spec(m)) && layout[heads_dir_spec(m)] is Dir
            &&& layout.contains_key(head_path_spec(m)) && layout[head_path_spec(m)]
                == (FsNodeV::File { content: head_ref_content() })
            &&& forall|k: Seq<char>| #[trigger]
                layout.contains_key(k) <==> (fs.contains_key(k) || in_chain(k, m) || k
                    == objects_dir_spec(m) || k == refs_dir_spec(m) || k == heads_dir_spec(m) || k
                    == head_path_spec(m))
            &&& forall|k: Seq<char>| #[trigger] fs.contains_key(k) ==> layout[k] == fs[k]
        }),
{
    let m = metadata_dir_spec(cwd, target);
    lemma_metadata_dir_shape(cwd, target);
    lemma_layout_children(m);
    lemma_with_dirs_to_frame(fs, m);
    lemma_with_dirs_to_chain(fs, m);
    let base = with_dirs_to(fs, m);
    assert(in_chain(m, m));
    assert(base.contains_key(m));
    assert(!fs.contains_key(objects_dir_spec(m)));
    assert(!fs.contains_key(refs_dir_spec(m)));
    assert(!fs.contains_key(heads_dir_spec(m)));
    assert(!fs.contains_key(head_path_spec(m)));
    assert forall|k: Seq<char>| #[trigger]
        base.contains_key(k) implies k.len() <= m.len() || fs.contains_key(k) by {
        if !fs.contains_key(k) {
            lemma_in_chain_len(k, m);
        }
    }
    assert forall|k: Seq<char>| in_chain(k, m) implies #[trigger] fresh_layout(
        fs,
        m,
    ).contains_key(k) by {
        assert(base.contains_key(k));
    }
}

/// Idempotence: for any target, two successive initializations of an
/// unobstructed, not yet initialized path report "freshly initialized" then
/// "already initialized", and the second call leaves the filesystem exactly
/// as the first did.
pub proof fn lemma_initialize_idempotent(
    r1: Result<InitOutcome, InitError>,
    r2: Result<InitOutcome, InitError>,
    fs0: Map<Seq<char>, FsNodeV>,
    fs1: Map<Seq<char>, FsNodeV>,
    fs2: Map<Seq<char>, FsNodeV>,
    cwd: Seq<char>,
    target: Seq<char>,
)
    requires
        parent_closed(fs0),
        !fs0.contains_key(metadata_dir_spec(cwd, target)),
        dir_all_ok(fs0, metadata_dir_spec(cwd, target)),
        init_post(r1, fs0, fs1, metadata_dir_spec(cwd, target)),
        init_post(r2, fs1, fs2, metadata_dir_spec(cwd, target)),
    ensures
        (r1 matches Ok(InitOutcome::Fresh { metadata_dir }) && metadata_dir@
            == metadata_dir_spec(cwd, target)),
        (r2 matches Ok(InitOutcome::Existing { metadata_dir }) && metadata_dir@
            == metadata_dir_spec(cwd, target)),
        fs2 == fs1,
{
    lemma_fresh_layout_complete(fs0, cwd, target);
}

/// Non-destructive re-initialization: whenever the metadata directory exists
/// — even if its `HEAD` file was removed since — initialization reports it as
/// existing, changes nothing, and in particular does not recreate `HEAD`.
pub proof fn lemma_reinit_non_destructive(
    r: Result<InitOutcome, InitError>,
    fs0: Map<Seq<char>, FsNodeV>,
    fs1: Map<Seq<char>, FsNodeV>,
    cwd: Seq<char>,
    target: Seq<char>,
)
    requires
        fs0.contains_key(metadata_dir_spec(cwd, target)),
        init_post(r, fs0, fs1, metadata_dir_spec(cwd, target)),
    ensures
        (r matches Ok(InitOutcome::Existing { metadata_dir }) && metadata_dir@
            == metadata_dir_spec(cwd, target)),
        fs1 == fs0,
        !fs0.contains_key(head_path_spec(metadata_dir_spec(cwd, target)))
            ==> !fs1.contains_key(head_path_spec(metadata_dir_spec(cwd, target))),
{
}

/// Path resolution: under the sentinel target the metadata directory sits
/// directly in the working directory; under a relative target it sits in the
/// target directory below the working directory.
pub proof fn lemma_metadata_dir_resolution(cwd: Seq<char>, target: Seq<char>)
    requires
        cwd.len() > 0,
        cwd[cwd.len() - 1] != '/',
    ensures
        metadata_dir_spec(cwd, "."@) == cwd + "/.rgit"@,
        (target != "."@ && target.len() > 0 && target[0] != '/' && target[target.len() - 1] != '/')
            ==> metadata_dir_spec(cwd, target) == cwd + "/"@ + target + "/.rgit"@,
{
    reveal_strlit(".rgit");
    reveal_strlit("/.rgit");
    reveal_strlit("/");
    assert forall|k: int| 0 <= k < "/.rgit"@.len() implies "/.rgit"@[k] == (seq!['/']
        + ".rgit"@)[k] by {
        if k == 0 {
        } else if k == 1 {
        } else if k == 2 {
        } else if k == 3 {
        } else if k == 4 {
        } else {
            assert(k == 5);
        }
    }
    assert("/.rgit"@ =~= seq!['/'] + ".rgit"@);
    assert("/"@ =~= seq!['/']);
    assert(metadata_dir_spec(cwd, "."@) == cwd + seq!['/'] + ".rgit"@);
    assert(cwd + seq!['/'] + ".rgit"@ =~= cwd + "/.rgit"@);
    if target != "."@ && target.len() > 0 && target[0] != '/' && target[target.len() - 1] != '/' {
        let root = joined(cwd, target);
        assert(root == cwd + seq!['/'] + target);
        assert(root.len() > 0 && root[root.len() - 1] == target[target.len() - 1]);
        assert(metadata_dir_spec(cwd, target) == root + seq!['/'] + ".rgit"@);
        assert(root + seq!['/'] + ".rgit"@ =~= cwd + "/"@ + target + "/.rgit"@);
    }
}

} // verus!

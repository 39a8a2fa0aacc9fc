//! Pure path arithmetic on `/`-separated path strings.
//!
//! Paths are plain character sequences; nothing here touches a filesystem.
//! `joined` is the single joining rule the whole crate resolves paths with,
//! and `parent_of` / `last_slash_at` give the ancestor structure that the
//! filesystem model's invariant and `create_dir_all` are built on.

use vstd::prelude::*;
use vstd::string::*;

verus! {

/// Joining rule for one path component: an absolute `rel` replaces `base`,
/// otherwise `rel` is appended behind a single `/` separator.
pub open spec fn joined(base: Seq<char>, rel: Seq<char>) -> Seq<char> {
    if rel.len() > 0 && rel[0] == '/' {
        rel
    } else if base.len() > 0 && base[base.len() - 1] == '/' {
        base + rel
    } else {
        base + seq!['/'] + rel
    }
}

/// Index of the last `/` in `p`, or `-1` if `p` has none.
pub open spec fn last_slash_at(p: Seq<char>) -> int
    decreases p.len(),
{
    if p.len() == 0 {
        -1
    } else if p[p.len() - 1] == '/' {
        p.len() - 1
    } else {
        last_slash_at(p.drop_last())
    }
}

/// A path has a parent when it contains a separator and is not the root `/`
/// itself (nor a single character).
pub open spec fn has_parent(p: Seq<char>) -> bool {
    p.len() > 1 && last_slash_at(p) >= 0
}

/// Everything before the last `/`, except that a path directly under the
/// root keeps `/` itself as its parent.
pub open spec fn parent_of(p: Seq<char>) -> Seq<char> {
    if last_slash_at(p) == 0 {
        p.subrange(0, 1)
    } else {
        p.subrange(0, last_slash_at(p))
    }
}

pub proof fn lemma_last_slash_at_props(p: Seq<char>)
    ensures
        -1 <= last_slash_at(p) < p.len(),
        last_slash_at(p) >= 0 ==> p[last_slash_at(p)] == '/',
        forall|k: int| last_slash_at(p) < k < p.len() ==> p[k] != '/',
    decreases p.len(),
{
    if p.len() == 0 {
    } else if p[p.len() - 1] == '/' {
    } else {
        lemma_last_slash_at_props(p.drop_last());
        assert forall|k: int| last_slash_at(p) < k < p.len() implies p[k] != '/' by {
            if k < p.len() - 1 {
                assert(p.drop_last()[k] == p[k]);
            }
        }
    }
}

/// A position holding `/` with no `/` anywhere after it is the last slash.
pub proof fn lemma_last_slash_at_witness(p: Seq<char>, j: int)
    requires
        0 <= j < p.len(),
        p[j] == '/',
        forall|k: int| j < k < p.len() ==> p[k] != '/',
    ensures
        last_slash_at(p) == j,
    decreases p.len(),
{
    if j == p.len() - 1 {
    } else {
        assert(p[p.len() - 1] != '/');
        assert(p.drop_last()[j] == p[j]);
        assert forall|k: int| j < k < p.drop_last().len() implies p.drop_last()[k] != '/' by {
            assert(p.drop_last()[k] == p[k]);
        }
        lemma_last_slash_at_witness(p.drop_last(), j);
    }
}

/// A path without any `/` has no last slash.
pub proof fn lemma_last_slash_at_none(p: Seq<char>)
    requires
        forall|k: int| 0 <= k < p.len() ==> p[k] != '/',
    ensures
        last_slash_at(p) == -1,
    decreases p.len(),
{
    if p.len() > 0 {
        assert forall|k: int| 0 <= k < p.drop_last().len() implies p.drop_last()[k] != '/' by {
            assert(p.drop_last()[k] == p[k]);
        }
        lemma_last_slash_at_none(p.drop_last());
    }
}

/// A parent is strictly shorter than its child.
pub proof fn lemma_parent_shorter(p: Seq<char>)
    requires
        has_parent(p),
    ensures
        parent_of(p).len() < p.len(),
        parent_of(p).len() > 0,
{
    lemma_last_slash_at_props(p);
}

/// Appending slash-free text does not move the last slash.
pub proof fn lemma_last_slash_at_append(s: Seq<char>, t: Seq<char>)
    requires
        forall|k: int| 0 <= k < t.len() ==> t[k] != '/',
    ensures
        last_slash_at(s + t) == last_slash_at(s),
    decreases t.len(),
{
    if t.len() == 0 {
        assert(s + t =~= s);
    } else {
        let st = s + t;
        assert(st[st.len() - 1] == t[t.len() - 1]);
        assert(st.drop_last() =~= s + t.drop_last());
        assert forall|k: int| 0 <= k < t.drop_last().len() implies t.drop_last()[k] != '/' by {
            assert(t.drop_last()[k] == t[k]);
        }
        lemma_last_slash_at_append(s, t.drop_last());
    }
}

/// Joining a slash-free, non-empty component under a base that does not end
/// in `/` concatenates with one separator and makes the base the parent.
pub proof fn lemma_joined_child(base: Seq<char>, rel: Seq<char>)
    requires
        base.len() > 0,
        base[base.len() - 1] != '/',
        rel.len() > 0,
        forall|k: int| 0 <= k < rel.len() ==> rel[k] != '/',
    ensures
        joined(base, rel) == base + seq!['/'] + rel,
        joined(base, rel).len() == base.len() + 1 + rel.len(),
        joined(base, rel)[joined(base, rel).len() - 1] == rel[rel.len() - 1],
        has_parent(joined(base, rel)),
        parent_of(joined(base, rel)) == base,
{
    let j = joined(base, rel);
    assert(rel[0] != '/');
    assert(j == base + seq!['/'] + rel);
    assert(j =~= (base + seq!['/']) + rel);
    lemma_last_slash_at_append(base + seq!['/'], rel);
    let bs = base + seq!['/'];
    assert(bs[bs.len() - 1] == '/');
    assert(last_slash_at(bs) == base.len() as int);
    assert(last_slash_at(j) == base.len() as int);
    assert(j[j.len() - 1] == rel[rel.len() - 1]);
    assert(parent_of(j) =~= base);
}

/// Executable form of `joined`.
pub fn join_path(base: &str, rel: &str) -> (r: String)
    ensures
        r@ == joined(base@, rel@),
{
    let rel_len: usize = rel.unicode_len();
    if rel_len > 0 && rel.get_char(0) == '/' {
        rel.to_owned()
    } else {
        let mut s = base.to_owned();
        let base_len: usize = base.unicode_len();
        if !(base_len > 0 && base.get_char(base_len - 1) == '/') {
            s.append("/");
            proof {
                reveal_strlit("/");
                assert(s@ =~= base@ + seq!['/']);
            }
        }
        s.append(rel);
        proof {
            if base@.len() > 0 && base@[base@.len() - 1] == '/' {
                assert(s@ =~= joined(base@, rel@));
            } else {
                assert(s@ =~= base@ + seq!['/'] + rel@);
            }
        }
        s
    }
}

/// Character-wise string comparison, so that equality of views is available
/// in contracts.
pub fn str_eq(a: &str, b: &str) -> (r: bool)
    ensures
        r == (a@ == b@),
{
    let la: usize = a.unicode_len();
    let lb: usize = b.unicode_len();
    if la != lb {
        return false;
    }
    let mut i: usize = 0;
    while i < la
        invariant
            i <= la,
            la == a@.len(),
            la == b@.len(),
            forall|k: int| 0 <= k < i ==> a@[k] == b@[k],
        decreases la - i,
    {
        if a.get_char(i) != b.get_char(i) {
            return false;
        }
        i = i + 1;
    }
    proof {
        assert(a@ =~= b@);
    }
    true
}

/// Executable form of `parent_of`: `None` exactly when the path has no parent.
pub fn parent_of_path(p: &str) -> (r: Option<String>)
    ensures
        has_parent(p@) ==> (r matches Some(q) && q@ == parent_of(p@)),
        !has_parent(p@) ==> r is None,
{
    let len: usize = p.unicode_len();
    let mut i: usize = len;
    while i > 0
        invariant
            i <= len,
            len == p@.len(),
            forall|k: int| i <= k < p@.len() ==> p@[k] != '/',
        decreases i,
    {
        if p.get_char(i - 1) == '/' {
            proof {
                lemma_last_slash_at_witness(p@, i - 1);
            }
            if len == 1 {
                return None;
            }
            let cut: usize = if i - 1 == 0 { 1 } else { i - 1 };
            let q = p.substring_char(0, cut);
            return Some(q.to_owned());
        }
        i = i - 1;
    }
    proof {
        lemma_last_slash_at_none(p@);
    }
    None
}

} // verus!

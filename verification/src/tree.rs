//! Commit trees of the repository model: flattened pre-order entry lists,
//! the lookup that finds which child commit a parent tree pins at a
//! submodule path, and the substitution that rewrites those pins through the
//! children's commit maps.

use vstd::prelude::*;
use crate::commit_map::CommitMap;
use crate::names::str_eq;

verus! {

/// The kind of a tree entry, as the object store reports it.
#[derive(Clone, Copy, PartialEq, Eq, Structural, Debug)]
pub enum EntryKind {
    Blob,
    Tree,
    Commit,
    Tag,
}

/// One entry of a flattened tree walk: the combined path from the tree root,
/// the entry kind, and the object id.  An entry of kind `Commit` pins a
/// submodule: its id is a commit id of the child repository.
pub struct TreeEntry {
    pub path: String,
    pub kind: EntryKind,
    pub id: usize,
}

/// The submodule commit a tree pins at path `p`: the id of the last entry of
/// kind `Commit` whose combined path equals `p`.
pub open spec fn gitlink_at(t: Seq<TreeEntry>, p: Seq<char>) -> Option<usize>
    decreases t.len(),
{
    if t.len() == 0 {
        None
    } else if t.last().kind == EntryKind::Commit && t.last().path@ == p {
        Some(t.last().id)
    } else {
        gitlink_at(t.drop_last(), p)
    }
}

/// Finds which version of a submodule is checked out in a parent tree: the
/// commit entry whose combined path equals the submodule's path.
pub fn submodule_at_tree(tree: &Vec<TreeEntry>, sub_path: &String) -> (r: Option<usize>)
    ensures
        r == gitlink_at(tree@, sub_path@),
{
    let mut i: usize = tree.len();
    proof {
        assert(tree@.take(tree@.len() as int) =~= tree@);
    }
    while i > 0
        invariant
            i <= tree@.len(),
            gitlink_at(tree@, sub_path@) == gitlink_at(tree@.take(i as int), sub_path@),
        decreases i,
    {
        proof {
            assert(tree@.take(i as int).drop_last() =~= tree@.take(i - 1));
            assert(tree@.take(i as int).last() == tree@[i - 1]);
        }
        let e = &tree[i - 1];
        if matches!(e.kind, EntryKind::Commit) && str_eq(e.path.as_str(), sub_path.as_str()) {
            return Some(e.id);
        }
        i = i - 1;
    }
    proof {
        assert(tree@.take(0) =~= Seq::<TreeEntry>::empty());
    }
    None
}

/// The commit map recorded for child path `p`, if any: the last record wins.
pub open spec fn find_child_map(ms: Seq<(String, CommitMap)>, p: Seq<char>) -> Option<
    Map<usize, usize>,
>
    decreases ms.len(),
{
    if ms.len() == 0 {
        None
    } else if ms.last().0@ == p {
        Some(ms.last().1@)
    } else {
        find_child_map(ms.drop_last(), p)
    }
}

/// What a submodule id at path `p` is rewritten to: through the child's
/// commit map where one is recorded and covers the id, else unchanged.
pub open spec fn subst_id_at(ms: Seq<(String, CommitMap)>, p: Seq<char>, id: usize) -> usize {
    match find_child_map(ms, p) {
        Some(m) => if m.dom().contains(id) {
            m[id]
        } else {
            id
        },
        None => id,
    }
}

/// `e2` is `e` with its submodule pin rewritten through the child maps.
pub open spec fn entry_substituted(
    ms: Seq<(String, CommitMap)>,
    e: TreeEntry,
    e2: TreeEntry,
) -> bool {
    &&& e2.path@ == e.path@
    &&& e2.kind == e.kind
    &&& e2.id == if e.kind == EntryKind::Commit {
        subst_id_at(ms, e.path@, e.id)
    } else {
        e.id
    }
}

/// `t2` is `t` with every submodule pin rewritten through the child maps.
pub open spec fn tree_substituted(
    ms: Seq<(String, CommitMap)>,
    t: Seq<TreeEntry>,
    t2: Seq<TreeEntry>,
) -> bool {
    &&& t2.len() == t.len()
    &&& forall|k: int| 0 <= k < t.len() ==> #[trigger] entry_substituted(ms, t[k], t2[k])
}

/// Looks up the commit map recorded for a child path.
pub fn child_map_for<'a>(ms: &'a Vec<(String, CommitMap)>, p: &String) -> (r: Option<
    &'a CommitMap,
>)
    ensures
        match r {
            Some(m) => find_child_map(ms@, p@) == Some(m@),
            None => find_child_map(ms@, p@) is None,
        },
{
    let mut i: usize = ms.len();
    proof {
        assert(ms@.take(ms@.len() as int) =~= ms@);
    }
    while i > 0
        invariant
            i <= ms@.len(),
            find_child_map(ms@, p@) == find_child_map(ms@.take(i as int), p@),
        decreases i,
    {
        proof {
            assert(ms@.take(i as int).drop_last() =~= ms@.take(i - 1));
            assert(ms@.take(i as int).last() == ms@[i - 1]);
        }
        if str_eq(ms[i - 1].0.as_str(), p.as_str()) {
            return Some(&ms[i - 1].1);
        }
        i = i - 1;
    }
    proof {
        assert(ms@.take(0) =~= Seq::<(String, CommitMap)>::empty());
    }
    None
}

/// Rewrites every submodule pin of `tree` through the child maps: the tree a
/// rewritten commit is expected to carry.
pub fn substitute_tree(tree: &Vec<TreeEntry>, ms: &Vec<(String, CommitMap)>) -> (r: Vec<TreeEntry>)
    ensures
        tree_substituted(ms@, tree@, r@),
{
    let mut out: Vec<TreeEntry> = Vec::new();
    let mut i: usize = 0;
    while i < tree.len()
        invariant
            i <= tree@.len(),
            out@.len() == i,
            forall|k: int| 0 <= k < i ==> #[trigger] entry_substituted(ms@, tree@[k], out@[k]),
        decreases tree@.len() - i,
    {
        let e = &tree[i];
        let new_id = if matches!(e.kind, EntryKind::Commit) {
            match child_map_for(ms, &e.path) {
                Some(m) => match m.get(e.id) {
                    Some(mapped) => mapped,
                    None => e.id,
                },
                None => e.id,
            }
        } else {
            e.id
        };
        out.push(TreeEntry { path: e.path.clone(), kind: e.kind, id: new_id });
        i = i + 1;
    }
    out
}

} // verus!

//! The per-repository commit-identity map: for each pre-rebase commit in the
//! replayed range, the rewritten commit that stands for it.

use vstd::prelude::*;

verus! {

/// The mathematical content of an entry list: later entries win.
pub open spec fn entries_map(s: Seq<(usize, usize)>) -> Map<usize, usize>
    decreases s.len(),
{
    if s.len() == 0 {
        Map::empty()
    } else {
        entries_map(s.drop_last()).insert(s.last().0, s.last().1)
    }
}

/// Maps pre-rebase commit ids to their rewritten counterparts at one
/// repository of the submodule forest.
pub struct CommitMap {
    entries: Vec<(usize, usize)>,
}

impl View for CommitMap {
    type V = Map<usize, usize>;

    closed spec fn view(&self) -> Map<usize, usize> {
        entries_map(self.entries@)
    }
}

proof fn lemma_entries_map_dom(s: Seq<(usize, usize)>, k: usize)
    ensures
        entries_map(s).dom().contains(k) <==> exists|i: int| 0 <= i < s.len() && s[i].0 == k,
    decreases s.len(),
{
    if s.len() > 0 {
        lemma_entries_map_dom(s.drop_last(), k);
        if entries_map(s).dom().contains(k) {
            if s.last().0 == k {
                assert(s[s.len() - 1].0 == k);
            } else {
                let i = choose|i: int| 0 <= i < s.len() - 1 && s.drop_last()[i].0 == k;
                assert(s[i].0 == k);
            }
        }
        if exists|i: int| 0 <= i < s.len() && s[i].0 == k {
            let i = choose|i: int| 0 <= i < s.len() && s[i].0 == k;
            if i < s.len() - 1 {
                assert(s.drop_last()[i].0 == k);
            }
        }
    }
}

proof fn lemma_entries_map_at(s: Seq<(usize, usize)>, i: int)
    requires
        0 <= i < s.len(),
        forall|j: int| i < j < s.len() ==> s[j].0 != s[i].0,
    ensures
        entries_map(s).dom().contains(s[i].0),
        entries_map(s)[s[i].0] == s[i].1,
    decreases s.len(),
{
    if i == s.len() - 1 {
        assert(entries_map(s) == entries_map(s.drop_last()).insert(s.last().0, s.last().1));
    } else {
        assert(s.drop_last()[i] == s[i]);
        lemma_entries_map_at(s.drop_last(), i);
        assert(s.last().0 != s[i].0);
    }
}

proof fn lemma_entries_map_finite(s: Seq<(usize, usize)>)
    ensures
        entries_map(s).dom().finite(),
    decreases s.len(),
{
    if s.len() > 0 {
        lemma_entries_map_finite(s.drop_last());
    }
}

proof fn lemma_entries_map_len(s: Seq<(usize, usize)>)
    requires
        forall|i: int, j: int| 0 <= i < j < s.len() ==> s[i].0 != s[j].0,
    ensures
        entries_map(s).dom().finite(),
        entries_map(s).dom().len() == s.len(),
    decreases s.len(),
{
    lemma_entries_map_finite(s);
    if s.len() > 0 {
        let d = s.drop_last();
        lemma_entries_map_len(d);
        lemma_entries_map_dom(d, s.last().0);
        assert(forall|i: int| 0 <= i < d.len() ==> d[i] == s[i]);
        assert(!entries_map(d).dom().contains(s.last().0));
        assert(entries_map(s).dom() =~= entries_map(d).dom().insert(s.last().0));
    }
}

proof fn lemma_entries_map_update(s: Seq<(usize, usize)>, i: int, v: usize)
    requires
        0 <= i < s.len(),
        forall|j: int| i < j < s.len() ==> s[j].0 != s[i].0,
    ensures
        entries_map(s.update(i, (s[i].0, v))) == entries_map(s).insert(s[i].0, v),
    decreases s.len(),
{
    let k = s[i].0;
    let s2 = s.update(i, (k, v));
    if i == s.len() - 1 {
        assert(s2.drop_last() =~= s.drop_last());
        assert(s2.last() == (k, v));
        assert(entries_map(s2) =~= entries_map(s).insert(k, v));
    } else {
        assert(s2.drop_last() =~= s.drop_last().update(i, (k, v)));
        assert(s.drop_last()[i] == s[i]);
        lemma_entries_map_update(s.drop_last(), i, v);
        assert(s.last().0 != k);
        assert(s2.last() == s.last());
        assert(entries_map(s2) == entries_map(s.drop_last()).insert(k, v).insert(
            s.last().0,
            s.last().1,
        ));
        assert(entries_map(s.drop_last()).insert(k, v).insert(s.last().0, s.last().1)
            =~= entries_map(s).insert(k, v));
    }
}

impl CommitMap {
    /// No two records cover the same pre-rebase commit.
    pub closed spec fn inv(&self) -> bool {
        forall|i: int, j: int|
            0 <= i < j < self.entries@.len() ==> self.entries@[i].0 != self.entries@[j].0
    }

    /// An empty map.
    pub fn new() -> (r: CommitMap)
        ensures
            r@ == Map::<usize, usize>::empty(),
            r.inv(),
    {
        CommitMap { entries: Vec::new() }
    }

    /// The map holding exactly one association.
    pub fn singleton(k: usize, v: usize) -> (r: CommitMap)
        ensures
            r@ == Map::<usize, usize>::empty().insert(k, v),
            r.inv(),
    {
        let mut m = CommitMap::new();
        m.insert(k, v);
        m
    }

    /// Records that pre-rebase commit `k` was rewritten as `v`, replacing an
    /// earlier record for `k` if one exists.
    pub fn insert(&mut self, k: usize, v: usize)
        ensures
            final(self)@ == old(self)@.insert(k, v),
            old(self).inv() ==> final(self).inv(),
    {
        let ghost s = self.entries@;
        let mut i: usize = self.entries.len();
        while i > 0
            invariant
                self.entries@ == s,
                s == old(self).entries@,
                i <= s.len(),
                forall|j: int| i <= j < s.len() ==> s[j].0 != k,
            decreases i,
        {
            if self.entries[i - 1].0 == k {
                proof {
                    lemma_entries_map_update(s, i - 1, v);
                }
                self.entries[i - 1] = (k, v);
                proof {
                    assert(self.entries@ =~= s.update(i - 1, (k, v)));
                    assert(forall|j: int|
                        0 <= j < s.len() ==> self.entries@[j].0 == s[j].0);
                }
                return;
            }
            i = i - 1;
        }
        self.entries.push((k, v));
        proof {
            assert(self.entries@.drop_last() =~= s);
            assert(forall|j: int| 0 <= j < s.len() ==> self.entries@[j] == s[j]);
        }
    }

    /// The rewritten commit recorded for `k`, if any.
    pub fn get(&self, k: usize) -> (r: Option<usize>)
        ensures
            match r {
                Some(v) => self@.dom().contains(k) && self@[k] == v,
                None => !self@.dom().contains(k),
            },
    {
        let mut i: usize = self.entries.len();
        while i > 0
            invariant
                i <= self.entries@.len(),
                forall|j: int| i <= j < self.entries@.len() ==> self.entries@[j].0 != k,
            decreases i,
        {
            if self.entries[i - 1].0 == k {
                proof {
                    lemma_entries_map_at(self.entries@, i - 1);
                }
                return Some(self.entries[i - 1].1);
            }
            i = i - 1;
        }
        proof {
            lemma_entries_map_dom(self.entries@, k);
        }
        None
    }

    /// Whether a record for `k` exists.
    pub fn contains_key(&self, k: usize) -> (r: bool)
        ensures
            r == self@.dom().contains(k),
    {
        self.get(k).is_some()
    }

    /// How many commits the map covers.
    pub fn len(&self) -> (r: usize)
        requires
            self.inv(),
        ensures
            r == self@.dom().len(),
    {
        proof {
            lemma_entries_map_len(self.entries@);
        }
        self.entries.len()
    }
}

} // verus!

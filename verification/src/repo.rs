//! The repository model the driver is verified against: an append-only
//! commit table, local branches, a HEAD that is either detached or on a
//! branch, and the commit the working tree is checked out at.

use vstd::prelude::*;
use crate::tree::TreeEntry;

verus! {

/// A local branch: a name and the commit it points at.
pub struct Branch {
    pub name: String,
    pub target: usize,
}

/// Where HEAD points: directly at a commit, or at a branch by name.
pub enum HeadState {
    Detached(usize),
    OnBranch(String),
}

/// One commit: its first parent and its flattened tree.  Commit ids are the
/// indices of this table, so a parent always has a smaller id than its
/// child.
pub struct CommitData {
    pub parent: Option<usize>,
    pub tree: Vec<TreeEntry>,
}

/// A repository of the model.
pub struct Repo {
    pub commits: Vec<CommitData>,
    pub branches: Vec<Branch>,
    pub head: HeadState,
    pub workdir: usize,
}

/// The mathematical content of the branch list: later entries win.
pub open spec fn branch_map(s: Seq<Branch>) -> Map<Seq<char>, usize>
    decreases s.len(),
{
    if s.len() == 0 {
        Map::empty()
    } else {
        branch_map(s.drop_last()).insert(s.last().name@, s.last().target)
    }
}

proof fn lemma_branch_map_dom(s: Seq<Branch>, k: Seq<char>)
    ensures
        branch_map(s).dom().contains(k) <==> exists|i: int| 0 <= i < s.len() && s[i].name@ == k,
    decreases s.len(),
{
    if s.len() > 0 {
        lemma_branch_map_dom(s.drop_last(), k);
        if branch_map(s).dom().contains(k) {
            if s.last().name@ == k {
                assert(s[s.len() - 1].name@ == k);
            } else {
                let i = choose|i: int| 0 <= i < s.len() - 1 && s.drop_last()[i].name@ == k;
                assert(s[i].name@ == k);
            }
        }
        if exists|i: int| 0 <= i < s.len() && s[i].name@ == k {
            let i = choose|i: int| 0 <= i < s.len() && s[i].name@ == k;
            if i < s.len() - 1 {
                assert(s.drop_last()[i].name@ == k);
            }
        }
    }
}

proof fn lemma_branch_map_at(s: Seq<Branch>, i: int)
    requires
        0 <= i < s.len(),
        forall|j: int| i < j < s.len() ==> s[j].name@ != s[i].name@,
    ensures
        branch_map(s).dom().contains(s[i].name@),
        branch_map(s)[s[i].name@] == s[i].target,
    decreases s.len(),
{
    if i == s.len() - 1 {
    } else {
        assert(s.drop_last()[i] == s[i]);
        lemma_branch_map_at(s.drop_last(), i);
        assert(s.last().name@ != s[i].name@);
    }
}

proof fn lemma_branch_map_bound(s: Seq<Branch>, l: int)
    requires
        forall|i: int| 0 <= i < s.len() ==> (#[trigger] s[i].target) < l,
    ensures
        forall|k: Seq<char>|
            branch_map(s).dom().contains(k) ==> #[trigger] branch_map(s)[k] < l,
    decreases s.len(),
{
    if s.len() > 0 {
        assert(forall|i: int| 0 <= i < s.len() - 1 ==> s.drop_last()[i] == s[i]);
        lemma_branch_map_bound(s.drop_last(), l);
        assert(s.last() == s[s.len() - 1]);
        assert forall|k: Seq<char>| branch_map(s).dom().contains(k)
            implies #[trigger] branch_map(s)[k] < l by {
            if k != s.last().name@ {
                assert(branch_map(s)[k] == branch_map(s.drop_last())[k]);
            }
        }
    }
}

/// The first-parent ancestor chain of `c`, most recent first, ending at the
/// root commit.
pub open spec fn chain(commits: Seq<CommitData>, c: usize) -> Seq<usize>
    decreases c,
{
    if c < commits.len() {
        match commits[c as int].parent {
            Some(p) => if p < c {
                seq![c] + chain(commits, p)
            } else {
                seq![c]
            },
            None => seq![c],
        }
    } else {
        seq![c]
    }
}

/// The commits on `h`'s chain strictly above `b`, most recent first: the
/// range a rebase of `h` onto something based at `b` replays.
pub open spec fn range_upto(commits: Seq<CommitData>, h: usize, b: usize) -> Seq<usize>
    decreases h,
{
    if h == b {
        Seq::empty()
    } else if h < commits.len() {
        match commits[h as int].parent {
            Some(p) => if p < h {
                seq![h] + range_upto(commits, p, b)
            } else {
                seq![h]
            },
            None => seq![h],
        }
    } else {
        seq![h]
    }
}

/// Parents precede children in the commit table.
pub open spec fn parents_decrease(commits: Seq<CommitData>) -> bool {
    forall|i: int|
        0 <= i < commits.len() ==> match #[trigger] commits[i].parent {
            Some(p) => p < i,
            None => true,
        }
}

/// A chain starts at its argument, stays inside the table, and is strictly
/// decreasing, so no commit repeats on it.
pub proof fn lemma_chain_elems(commits: Seq<CommitData>, c: usize)
    requires
        parents_decrease(commits),
        c < commits.len(),
    ensures
        chain(commits, c).len() >= 1,
        chain(commits, c)[0] == c,
        forall|i: int| 0 <= i < chain(commits, c).len() ==> (#[trigger] chain(commits, c)[i]) <= c,
        forall|i: int|
            0 <= i < chain(commits, c).len() ==> (#[trigger] chain(commits, c)[i])
                < commits.len(),
        forall|i: int, j: int|
            0 <= i < j < chain(commits, c).len() ==> chain(commits, c)[i] > chain(
                commits,
                c,
            )[j],
        forall|i: int|
            0 <= i && i + 1 < chain(commits, c).len() ==> commits[chain(
                commits,
                c,
            )[i] as int].parent == Some(chain(commits, c)[i + 1]),
    decreases c,
{
    match commits[c as int].parent {
        Some(p) => {
            lemma_chain_elems(commits, p);
            let ch = chain(commits, c);
            let cp = chain(commits, p);
            assert(ch == seq![c] + cp);
            assert(ch.len() == 1 + cp.len());
            assert(forall|i: int| 0 <= i < cp.len() ==> ch[i + 1] == cp[i]);
            assert forall|i: int| 0 <= i && i + 1 < ch.len() implies commits[ch[i] as int].parent
                == Some(ch[i + 1]) by {
                if i == 0 {
                    assert(ch[0] == c);
                    assert(ch[1] == cp[0]);
                    assert(cp[0] == p);
                } else {
                    assert(0 <= i - 1 < cp.len());
                    assert(ch[(i - 1) + 1] == cp[i - 1]);
                    assert(ch[i + 1] == cp[i]);
                    assert(commits[cp[i - 1] as int].parent == Some(cp[i]));
                }
            }
        },
        None => {},
    }
}

/// Splitting a chain at a commit that lies on it: the part above, then the
/// commit's own chain.
pub proof fn lemma_chain_split(commits: Seq<CommitData>, h: usize, b: usize)
    requires
        parents_decrease(commits),
        h < commits.len(),
        chain(commits, h).contains(b),
    ensures
        chain(commits, h) == range_upto(commits, h, b) + chain(commits, b),
        !range_upto(commits, h, b).contains(b),
    decreases h,
{
    lemma_chain_elems(commits, h);
    if h == b {
        assert(range_upto(commits, h, b) + chain(commits, b) =~= chain(commits, h));
    } else {
        let p = commits[h as int].parent->0;
        let i = choose|i: int|
            0 <= i < chain(commits, h).len() && chain(commits, h)[i] == b;
        assert(i != 0);
        assert(chain(commits, h) == seq![h] + chain(commits, p));
        assert(chain(commits, p)[i - 1] == b);
        lemma_chain_split(commits, p, b);
        assert(seq![h] + (range_upto(commits, p, b) + chain(commits, b)) =~= (seq![h]
            + range_upto(commits, p, b)) + chain(commits, b));
        if range_upto(commits, h, b).contains(b) {
            let j = choose|j: int|
                0 <= j < range_upto(commits, h, b).len() && range_upto(commits, h, b)[j] == b;
            if j == 0 {
                assert(h == b);
            } else {
                assert(range_upto(commits, p, b)[j - 1] == b);
            }
        }
    }
}

/// The merge base of `a` and `b`: the most recent commit on `b`'s chain that
/// is also an ancestor of `a`.
pub open spec fn merge_base_spec(commits: Seq<CommitData>, a: usize, b: usize) -> Option<usize>
    decreases b,
{
    if chain(commits, a).contains(b) {
        Some(b)
    } else if b < commits.len() {
        match commits[b as int].parent {
            Some(p) => if p < b {
                merge_base_spec(commits, a, p)
            } else {
                None
            },
            None => None,
        }
    } else {
        None
    }
}

/// A merge base lies on both chains.
pub proof fn lemma_merge_base_common(commits: Seq<CommitData>, a: usize, b: usize)
    requires
        merge_base_spec(commits, a, b) is Some,
    ensures
        chain(commits, a).contains(merge_base_spec(commits, a, b)->0),
        chain(commits, b).contains(merge_base_spec(commits, a, b)->0),
    decreases b,
{
    let m = merge_base_spec(commits, a, b)->0;
    if chain(commits, a).contains(b) {
        assert(chain(commits, b)[0] == b);
    } else {
        let p = commits[b as int].parent->0;
        lemma_merge_base_common(commits, a, p);
        let i = choose|i: int| 0 <= i < chain(commits, p).len() && chain(commits, p)[i] == m;
        assert(chain(commits, b)[i + 1] == m);
    }
}

impl Repo {
    /// The branch list as a map from branch name to target commit.
    pub open spec fn branches_map(self) -> Map<Seq<char>, usize> {
        branch_map(self.branches@)
    }

    /// The name HEAD reads as: the literal `HEAD` when detached, else the
    /// branch name.
    pub open spec fn spec_head_name(self) -> Seq<char> {
        match self.head {
            HeadState::Detached(_) => "HEAD"@,
            HeadState::OnBranch(n) => n@,
        }
    }

    /// The commit HEAD peels to.
    pub open spec fn spec_head_id(self) -> usize {
        match self.head {
            HeadState::Detached(id) => id,
            HeadState::OnBranch(n) => self.branches_map()[n@],
        }
    }

    /// Well-formedness of the model: parents precede children, branches and
    /// HEAD point into the commit table.
    pub open spec fn wf(self) -> bool {
        &&& 1 <= self.commits@.len()
        &&& forall|i: int|
            0 <= i < self.commits@.len() ==> match #[trigger] self.commits@[i].parent {
                Some(p) => p < i,
                None => true,
            }
        &&& forall|i: int|
            0 <= i < self.branches@.len() ==> (#[trigger] self.branches@[i].target)
                < self.commits@.len()
        &&& match self.head {
            HeadState::Detached(id) => id < self.commits@.len(),
            HeadState::OnBranch(n) => self.branches_map().dom().contains(n@),
        }
        &&& self.workdir < self.commits@.len()
    }

    /// Branch targets stay inside the commit table.
    pub proof fn lemma_branch_targets_bound(self)
        requires
            self.wf(),
        ensures
            forall|k: Seq<char>|
                self.branches_map().dom().contains(k) ==> #[trigger] self.branches_map()[k]
                    < self.commits@.len(),
    {
        lemma_branch_map_bound(self.branches@, self.commits@.len() as int);
    }

    /// The target of the named branch, if it exists.
    pub fn find_branch(&self, name: &String) -> (r: Option<usize>)
        ensures
            match r {
                Some(t) => self.branches_map().dom().contains(name@) && self.branches_map()[name@]
                    == t,
                None => !self.branches_map().dom().contains(name@),
            },
    {
        let mut i: usize = self.branches.len();
        while i > 0
            invariant
                i <= self.branches@.len(),
                forall|j: int|
                    i <= j < self.branches@.len() ==> (#[trigger] self.branches@[j].name)@
                        != name@,
            decreases i,
        {
            if crate::names::str_eq(self.branches[i - 1].name.as_str(), name.as_str()) {
                proof {
                    lemma_branch_map_at(self.branches@, i - 1);
                }
                return Some(self.branches[i - 1].target);
            }
            i = i - 1;
        }
        proof {
            lemma_branch_map_dom(self.branches@, name@);
        }
        None
    }

    /// Whether the named branch exists.
    pub fn has_branch(&self, name: &String) -> (r: bool)
        ensures
            r == self.branches_map().dom().contains(name@),
    {
        self.find_branch(name).is_some()
    }

    /// Creates or force-moves a branch to `target`.
    pub fn upsert_branch(&mut self, name: &String, target: usize)
        ensures
            final(self).branches_map() == old(self).branches_map().insert(name@, target),
            final(self).commits@ == old(self).commits@,
            final(self).head == old(self).head,
            final(self).workdir == old(self).workdir,
            (forall|i: int|
                0 <= i < old(self).branches@.len() ==> (#[trigger] old(self).branches@[i].target)
                    < old(self).commits@.len()) && target < old(self).commits@.len()
                ==> forall|j: int|
                0 <= j < final(self).branches@.len() ==> (#[trigger] final(self).branches@[j].target) < old(self).commits@.len(),
    {
        let ghost s = self.branches@;
        self.branches.push(Branch { name: name.clone(), target });
        proof {
            assert(self.branches@.drop_last() =~= s);
            assert(forall|j: int| 0 <= j < s.len() ==> self.branches@[j] == s[j]);
            assert(self.branches@.last().name@ == name@);
        }
    }

    /// Deletes every record of the named branch.
    pub fn delete_branch(&mut self, name: &String)
        ensures
            final(self).branches_map() == old(self).branches_map().remove(name@),
            final(self).commits@ == old(self).commits@,
            final(self).head == old(self).head,
            final(self).workdir == old(self).workdir,
            (forall|i: int|
                0 <= i < old(self).branches@.len() ==> (#[trigger] old(self).branches@[i].target)
                    < old(self).commits@.len()) ==> forall|j: int|
                0 <= j < final(self).branches@.len() ==> (#[trigger] final(self).branches@[j].target) < old(self).commits@.len(),
    {
        let ghost s = self.branches@;
        let mut out: Vec<Branch> = Vec::new();
        let mut i: usize = 0;
        while i < self.branches.len()
            invariant
                self.branches@ == s,
                i <= s.len(),
                branch_map(out@) == branch_map(s.take(i as int)).remove(name@),
                forall|j: int| 0 <= j < out@.len() ==> (#[trigger] out@[j].name)@ != name@,
                (forall|q: int|
                    0 <= q < s.len() ==> (#[trigger] s[q].target) < old(self).commits@.len())
                    ==> forall|j: int|
                    0 <= j < out@.len() ==> (#[trigger] out@[j].target)
                        < old(self).commits@.len(),
            decreases s.len() - i,
        {
            proof {
                assert(s.take(i + 1).drop_last() =~= s.take(i as int));
                assert(s.take(i + 1).last() == s[i as int]);
            }
            let b = &self.branches[i];
            if !crate::names::str_eq(b.name.as_str(), name.as_str()) {
                let ghost outg = out@;
                out.push(Branch { name: b.name.clone(), target: b.target });
                proof {
                    assert(out@.drop_last() =~= outg);
                    assert(out@.last().name@ == s[i as int].name@);
                    assert(out@.last().target == s[i as int].target);
                    assert(forall|j: int| 0 <= j < outg.len() ==> out@[j] == outg[j]);
                    assert(branch_map(out@) =~= branch_map(s.take(i + 1)).remove(name@));
                }
            } else {
                proof {
                    assert(branch_map(out@) =~= branch_map(s.take(i + 1)).remove(name@));
                }
            }
            i = i + 1;
        }
        proof {
            assert(s.take(s.len() as int) =~= s);
        }
        self.branches = out;
    }

    /// The name HEAD reads as.
    pub fn head_name(&self) -> (r: String)
        ensures
            r@ == self.spec_head_name(),
    {
        match &self.head {
            HeadState::Detached(_) => String::from_str("HEAD"),
            HeadState::OnBranch(n) => n.clone(),
        }
    }

    /// The commit HEAD peels to.
    pub fn head_commit(&self) -> (r: usize)
        requires
            self.wf(),
        ensures
            r == self.spec_head_id(),
            r < self.commits@.len(),
    {
        proof {
            self.lemma_branch_targets_bound();
        }
        match &self.head {
            HeadState::Detached(id) => *id,
            HeadState::OnBranch(n) => {
                let t = self.find_branch(n);
                match t {
                    Some(t) => t,
                    None => 0,  // unreachable under wf
                }
            },
        }
    }

    /// Points HEAD at the named branch.
    pub fn set_head(&mut self, name: &String)
        ensures
            final(self).head == HeadState::OnBranch(*name),
            final(self).commits@ == old(self).commits@,
            final(self).branches@ == old(self).branches@,
            final(self).workdir == old(self).workdir,
            final(self).spec_head_name() == name@,
    {
        self.head = HeadState::OnBranch(name.clone());
        proof {
            assert(final(self).head == HeadState::OnBranch(*name));
        }
    }

    /// Detaches HEAD at a commit.
    pub fn set_head_detached(&mut self, id: usize)
        ensures
            final(self).head == HeadState::Detached(id),
            final(self).commits@ == old(self).commits@,
            final(self).branches@ == old(self).branches@,
            final(self).workdir == old(self).workdir,
    {
        self.head = HeadState::Detached(id);
    }

    /// A hard reset: checks the working tree out at `id` and, when HEAD is on
    /// a branch, moves that branch to `id`.
    pub fn reset_hard(&mut self, id: usize)
        requires
            id < old(self).commits@.len(),
        ensures
            final(self).workdir == id,
            final(self).commits@ == old(self).commits@,
            final(self).head == old(self).head,
            final(self).branches_map() == match old(self).head {
                HeadState::OnBranch(n) => old(self).branches_map().insert(n@, id),
                HeadState::Detached(_) => old(self).branches_map(),
            },
            (forall|i: int|
                0 <= i < old(self).branches@.len() ==> (#[trigger] old(self).branches@[i].target)
                    < old(self).commits@.len()) ==> forall|j: int|
                0 <= j < final(self).branches@.len() ==> (#[trigger] final(self).branches@[j].target) < old(self).commits@.len(),
    {
        self.workdir = id;
        let name = match &self.head {
            HeadState::OnBranch(n) => Some(n.clone()),
            HeadState::Detached(_) => None,
        };
        if let Some(n) = name {
            let ghost h = self.head;
            self.upsert_branch(&n, id);
            proof {
                assert(self.head == h);
            }
        }
    }

    /// Appends a commit; the new id is the old table length.
    pub fn add_commit(&mut self, parent: Option<usize>, tree: Vec<TreeEntry>) -> (id: usize)
        requires
            match parent {
                Some(p) => p < old(self).commits@.len(),
                None => true,
            },
        ensures
            id == old(self).commits@.len(),
            final(self).commits@ == old(self).commits@.push(
                CommitData { parent, tree },
            ),
            final(self).branches@ == old(self).branches@,
            final(self).head == old(self).head,
            final(self).workdir == old(self).workdir,
    {
        let id = self.commits.len();
        self.commits.push(CommitData { parent, tree });
        id
    }

    /// The first-parent chain of `c`, most recent first.
    pub fn collect_chain(&self, c: usize) -> (r: Vec<usize>)
        requires
            self.wf(),
            c < self.commits@.len(),
        ensures
            r@ == chain(self.commits@, c),
    {
        let mut out: Vec<usize> = Vec::new();
        let mut cur = c;
        let mut done = false;
        while !done
            invariant
                self.wf(),
                cur < self.commits@.len(),
                !done ==> chain(self.commits@, c) == out@ + chain(self.commits@, cur),
                done ==> chain(self.commits@, c) == out@,
            decreases cur + 1, (if done { 0int } else { 1 }),
        {
            let ghost outg = out@;
            out.push(cur);
            match self.commits[cur].parent {
                Some(p) => {
                    proof {
                        assert(chain(self.commits@, cur) == seq![cur] + chain(self.commits@, p));
                        assert(outg + (seq![cur] + chain(self.commits@, p)) =~= out@ + chain(
                            self.commits@,
                            p,
                        ));
                    }
                    cur = p;
                },
                None => {
                    proof {
                        assert(chain(self.commits@, cur) =~= seq![cur]);
                        assert(outg + chain(self.commits@, cur) =~= out@);
                    }
                    done = true;
                },
            }
        }
        out
    }

    /// The replayed range: the commits on `h`'s chain strictly above `b`,
    /// most recent first.
    pub fn range_to_base(&self, h: usize, b: usize) -> (r: Vec<usize>)
        requires
            self.wf(),
            h < self.commits@.len(),
            chain(self.commits@, h).contains(b),
        ensures
            r@ == range_upto(self.commits@, h, b),
            chain(self.commits@, h) == range_upto(self.commits@, h, b) + chain(self.commits@, b),
    {
        let ch = self.collect_chain(h);
        proof {
            lemma_chain_elems(self.commits@, h);
            lemma_chain_split(self.commits@, h, b);
        }
        let mut out: Vec<usize> = Vec::new();
        let mut k: usize = 0;
        let n = ch.len();
        loop
            invariant
                self.wf(),
                n == ch@.len(),
                h < self.commits@.len(),
                ch@ == chain(self.commits@, h),
                chain(self.commits@, h).contains(b),
                chain(self.commits@, h) == range_upto(self.commits@, h, b) + chain(
                    self.commits@,
                    b,
                ),
                !range_upto(self.commits@, h, b).contains(b),
                k < ch@.len(),
                out@ == ch@.take(k as int),
                forall|j: int| 0 <= j < k ==> ch@[j] != b,
                exists|j: int| k <= j < ch@.len() && ch@[j] == b,
            decreases ch@.len() - k,
        {
            proof {
                let j = choose|j: int| k <= j < ch@.len() && ch@[j] == b;
                assert(ch@[j] == b);
                assert(k < ch@.len());
            }
            if ch[k] == b {
                proof {
                    let rng = range_upto(self.commits@, h, b);
                    let l = rng.len() as int;
                    lemma_chain_elems(self.commits@, h);
                    let jj = choose|jj: int| 0 <= jj < ch@.len() && ch@[jj] == b;
                    assert(ch@[jj] < self.commits@.len());
                    lemma_chain_elems(self.commits@, b);
                    assert(chain(self.commits@, b)[0] == b);
                    assert(ch@[l] == b);
                    assert(k == l);
                    assert(forall|i: int| 0 <= i < l ==> ch@[i] == rng[i]);
                    assert(out@ =~= rng);
                }
                return out;
            }
            out.push(ch[k]);
            proof {
                assert(out@ =~= ch@.take(k + 1));
            }
            k = k + 1;
        }
    }

    /// The merge base of `a` and `b`, if the two share history.
    pub fn merge_base(&self, a: usize, b: usize) -> (r: Option<usize>)
        requires
            self.wf(),
            a < self.commits@.len(),
            b < self.commits@.len(),
        ensures
            r == merge_base_spec(self.commits@, a, b),
    {
        let a_chain = self.collect_chain(a);
        let mut cur = b;
        let mut give_up = false;
        while !give_up
            invariant
                self.wf(),
                cur < self.commits@.len(),
                a_chain@ == chain(self.commits@, a),
                !give_up ==> merge_base_spec(self.commits@, a, b) == merge_base_spec(
                    self.commits@,
                    a,
                    cur,
                ),
                give_up ==> merge_base_spec(self.commits@, a, b) is None,
            decreases cur + 1, (if give_up { 0int } else { 1 }),
        {
            if contains_id(&a_chain, cur) {
                return Some(cur);
            }
            match self.commits[cur].parent {
                Some(p) => {
                    cur = p;
                },
                None => {
                    give_up = true;
                },
            }
        }
        None
    }
}

/// Whether `v` holds `x`.
pub fn contains_id(v: &Vec<usize>, x: usize) -> (r: bool)
    ensures
        r == v@.contains(x),
{
    let mut i: usize = 0;
    while i < v.len()
        invariant
            i <= v@.len(),
            forall|j: int| 0 <= j < i ==> v@[j] != x,
        decreases v@.len() - i,
    {
        if v[i] == x {
            return true;
        }
        i = i + 1;
    }
    false
}

} // verus!

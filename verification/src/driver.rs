//! The submodule-forest rebase driver: post-order traversal, the per-node
//! rebase with submodule-pointer substitution, and the finalization and
//! rollback passes.

use vstd::prelude::*;
use crate::commit_map::CommitMap;
use crate::names::{backup_branch_name, branch_short_name, spec_backup_branch, str_eq};
use crate::repo::{chain, merge_base_spec, range_upto, HeadState, Repo};
use crate::tree::{child_map_for, submodule_at_tree, substitute_tree, tree_substituted, TreeEntry};

verus! {

/// A node of the submodule forest: the submodule's name and path in its
/// parent, the indices of its child nodes, and its repository.  Children
/// always carry larger indices than their parent.
pub struct RepoNode {
    pub name: String,
    pub path: String,
    pub children: Vec<usize>,
    pub repo: Repo,
}

/// The submodule forest, rooted at node 0.
pub struct Forest {
    pub nodes: Vec<RepoNode>,
}

/// What the store reports for one replayed commit.
pub enum StepOutcome {
    /// The patch applies cleanly: the rewritten commit carries the
    /// substituted tree.
    Clean,
    /// The patch conflicts; the user resolves it and the rewritten commit
    /// carries the resolved tree.
    ConflictResolved(Vec<TreeEntry>),
    /// The patch is already contained in the new base: no commit is written
    /// and the current head stands for the original.
    AlreadyApplied,
    /// The store fails; the rebase aborts and rollback runs.
    StoreFail,
}

/// Per-repository outcomes of the replay, keyed by pre-rebase commit id;
/// commits without a record replay cleanly.
pub struct ReplayPlan {
    pub overrides: Vec<(usize, StepOutcome)>,
}

/// Why a rebase aborts.
#[derive(Clone, Copy, PartialEq, Eq, Structural, Debug)]
pub enum DriverError {
    /// A submodule first pinned inside the rebase range lacks an entry at
    /// the final head or at the replayed tree.
    MissingChild,
    /// Head and target share no history.
    NoCommonHistory,
    /// A tree pins a submodule at a commit the child repository does not
    /// hold.
    InvalidPin,
    /// The store reported a failure.
    Store,
}

/// The outcome recorded for commit `c`: later records win, the default is a
/// clean replay.
pub open spec fn plan_outcome(s: Seq<(usize, StepOutcome)>, c: usize) -> StepOutcome
    decreases s.len(),
{
    if s.len() == 0 {
        StepOutcome::Clean
    } else if s.last().0 == c {
        s.last().1
    } else {
        plan_outcome(s.drop_last(), c)
    }
}

impl ReplayPlan {
    /// The outcome this plan holds for commit `c`.
    pub open spec fn outcome(self, c: usize) -> StepOutcome {
        plan_outcome(self.overrides@, c)
    }

    /// An empty plan: every commit replays cleanly.
    pub fn new() -> (r: ReplayPlan)
        ensures
            forall|c: usize| r.outcome(c) == StepOutcome::Clean,
    {
        ReplayPlan { overrides: Vec::new() }
    }

    /// Looks the outcome for `c` up; `None` stands for the default clean
    /// replay.
    fn lookup(&self, c: usize) -> (r: Option<&StepOutcome>)
        ensures
            match r {
                Some(o) => *o == self.outcome(c),
                None => self.outcome(c) == StepOutcome::Clean,
            },
    {
        let mut i: usize = self.overrides.len();
        proof {
            assert(self.overrides@.take(self.overrides@.len() as int) =~= self.overrides@);
        }
        while i > 0
            invariant
                i <= self.overrides@.len(),
                plan_outcome(self.overrides@, c) == plan_outcome(
                    self.overrides@.take(i as int),
                    c,
                ),
            decreases i,
        {
            proof {
                assert(self.overrides@.take(i as int).drop_last() =~= self.overrides@.take(i - 1));
                assert(self.overrides@.take(i as int).last() == self.overrides@[i - 1]);
            }
            if self.overrides[i - 1].0 == c {
                return Some(&self.overrides[i - 1].1);
            }
            i = i - 1;
        }
        None
    }
}

/// Two trees hold the same entries.
pub open spec fn tree_equiv(a: Seq<TreeEntry>, b: Seq<TreeEntry>) -> bool {
    &&& a.len() == b.len()
    &&& forall|k: int|
        0 <= k < a.len() ==> (#[trigger] b[k]).path@ == a[k].path@ && b[k].kind == a[k].kind
            && b[k].id == a[k].id
}

/// Copies a tree, entry by entry.
pub fn clone_tree(t: &Vec<TreeEntry>) -> (r: Vec<TreeEntry>)
    ensures
        tree_equiv(t@, r@),
{
    let mut out: Vec<TreeEntry> = Vec::new();
    let mut i: usize = 0;
    while i < t.len()
        invariant
            i <= t@.len(),
            out@.len() == i,
            forall|k: int|
                0 <= k < i ==> (#[trigger] out@[k]).path@ == t@[k].path@ && out@[k].kind
                    == t@[k].kind && out@[k].id == t@[k].id,
        decreases t@.len() - i,
    {
        let e = &t[i];
        out.push(TreeEntry { path: e.path.clone(), kind: e.kind, id: e.id });
        i = i + 1;
    }
    out
}

/// The marker branch holding the pre-rebase head, for rollback.
pub fn marker_old() -> (r: String)
    ensures
        r@ == "multi_rebase_old"@,
{
    String::from_str("multi_rebase_old")
}

/// The marker branch holding the rebased commits so far.
pub fn marker_cur() -> (r: String)
    ensures
        r@ == "multi_rebase_cur"@,
{
    String::from_str("multi_rebase_cur")
}

/// The marker branch the rebase runs on.
pub fn marker_new() -> (r: String)
    ensures
        r@ == "multi_rebase_new"@,
{
    String::from_str("multi_rebase_new")
}

/// The marker branch pointing at the original commit being replayed.
pub fn marker_track() -> (r: String)
    ensures
        r@ == "multi_rebase_track"@,
{
    String::from_str("multi_rebase_track")
}

/// The four transient marker branch names.
pub open spec fn is_marker_branch(n: Seq<char>) -> bool {
    ||| n == "multi_rebase_old"@
    ||| n == "multi_rebase_cur"@
    ||| n == "multi_rebase_new"@
    ||| n == "multi_rebase_track"@
}

/// No marker branch exists in the repository.
pub open spec fn no_markers(r: Repo) -> bool {
    &&& !r.branches_map().dom().contains("multi_rebase_old"@)
    &&& !r.branches_map().dom().contains("multi_rebase_cur"@)
    &&& !r.branches_map().dom().contains("multi_rebase_new"@)
    &&& !r.branches_map().dom().contains("multi_rebase_track"@)
}

/// All four marker branches exist in the repository.
pub open spec fn all_markers(r: Repo) -> bool {
    &&& r.branches_map().dom().contains("multi_rebase_old"@)
    &&& r.branches_map().dom().contains("multi_rebase_cur"@)
    &&& r.branches_map().dom().contains("multi_rebase_new"@)
    &&& r.branches_map().dom().contains("multi_rebase_track"@)
}

/// A marker branch name is never a backup branch name.
pub proof fn lemma_marker_not_backup(n: Seq<char>)
    requires
        is_marker_branch(n),
    ensures
        !spec_backup_branch(n),
{
    reveal_strlit("backup/");
    reveal_strlit("multi_rebase_old");
    reveal_strlit("multi_rebase_cur");
    reveal_strlit("multi_rebase_new");
    reveal_strlit("multi_rebase_track");
    if spec_backup_branch(n) {
        assert(n.subrange(0, 7)[0] == n[0]);
        assert(n[0] == 'b');
        assert(n[0] == 'm');
    }
}

/// Every backup branch of `a` still exists in `b`.
pub open spec fn backups_kept(a: Repo, b: Repo) -> bool {
    forall|n: Seq<char>|
        spec_backup_branch(n) && #[trigger] a.branches_map().dom().contains(n)
            ==> b.branches_map().dom().contains(n)
}

pub proof fn lemma_backups_trans(a: Repo, b: Repo, c: Repo)
    requires
        backups_kept(a, b),
        backups_kept(b, c),
    ensures
        backups_kept(a, c),
{
}

/// The forests have the same size, child structure, names and paths.
pub open spec fn same_shape(a: Forest, b: Forest) -> bool {
    &&& a.nodes@.len() == b.nodes@.len()
    &&& forall|i: int|
        0 <= i < a.nodes@.len() ==> (#[trigger] b.nodes@[i]).children@ == a.nodes@[i].children@
            && b.nodes@[i].name@ == a.nodes@[i].name@ && b.nodes@[i].path@ == a.nodes@[i].path@
}

/// Well-formedness of the forest: every repository is well formed and every
/// child index points forward.
pub open spec fn forest_wf(f: Forest) -> bool {
    &&& 1 <= f.nodes@.len()
    &&& forall|i: int| 0 <= i < f.nodes@.len() ==> (#[trigger] f.nodes@[i]).repo.wf()
    &&& forall|i: int, j: int|
        0 <= i < f.nodes@.len() && 0 <= j < f.nodes@[i].children@.len() ==> i < (
        #[trigger] f.nodes@[i].children@[j]) && f.nodes@[i].children@[j] < f.nodes@.len()
}

/// Backups are kept at every node.
pub open spec fn forest_backups_kept(a: Forest, b: Forest) -> bool {
    forall|i: int|
        0 <= i < a.nodes@.len() ==> backups_kept(
            (#[trigger] a.nodes@[i]).repo,
            b.nodes@[i].repo,
        )
}

/// Every node either has its branches untouched or carries the rollback
/// marker.
pub open spec fn nodes_clean_or_marked(a: Forest, b: Forest) -> bool {
    forall|i: int|
        0 <= i < a.nodes@.len() ==> (#[trigger] b.nodes@[i]).repo.branches_map()
            == a.nodes@[i].repo.branches_map() || b.nodes@[i].repo.branches_map().dom().contains(
            "multi_rebase_old"@,
        )
}

/// Every node either has its branches untouched or carries all four
/// markers.
pub open spec fn nodes_clean_or_all_markers(a: Forest, b: Forest) -> bool {
    forall|i: int|
        0 <= i < a.nodes@.len() ==> (#[trigger] b.nodes@[i]).repo.branches_map()
            == a.nodes@[i].repo.branches_map() || all_markers(b.nodes@[i].repo)
}

pub proof fn lemma_touch_trans(a: Forest, b: Forest, c: Forest)
    requires
        a.nodes@.len() == b.nodes@.len() == c.nodes@.len(),
        nodes_clean_or_marked(a, b),
        nodes_clean_or_marked(b, c),
    ensures
        nodes_clean_or_marked(a, c),
{
    assert forall|i: int| 0 <= i < a.nodes@.len() implies (#[trigger] c.nodes@[i]).repo.branches_map()
        == a.nodes@[i].repo.branches_map() || c.nodes@[i].repo.branches_map().dom().contains(
        "multi_rebase_old"@,
    ) by {
        assert(b.nodes@[i].repo.branches_map() == a.nodes@[i].repo.branches_map()
            || b.nodes@[i].repo.branches_map().dom().contains("multi_rebase_old"@));
    }
}

pub proof fn lemma_touch_trans_all(a: Forest, b: Forest, c: Forest)
    requires
        a.nodes@.len() == b.nodes@.len() == c.nodes@.len(),
        nodes_clean_or_all_markers(a, b),
        nodes_clean_or_all_markers(b, c),
    ensures
        nodes_clean_or_all_markers(a, c),
{
    assert forall|i: int| 0 <= i < a.nodes@.len() implies (#[trigger] c.nodes@[i]).repo.branches_map()
        == a.nodes@[i].repo.branches_map() || all_markers(c.nodes@[i].repo) by {
        assert(b.nodes@[i].repo.branches_map() == a.nodes@[i].repo.branches_map() || all_markers(
            b.nodes@[i].repo,
        ));
    }
}

pub proof fn lemma_forest_backups_trans(a: Forest, b: Forest, c: Forest)
    requires
        a.nodes@.len() == b.nodes@.len() == c.nodes@.len(),
        forest_backups_kept(a, b),
        forest_backups_kept(b, c),
    ensures
        forest_backups_kept(a, c),
{
    assert forall|i: int| 0 <= i < a.nodes@.len() implies backups_kept(
        (#[trigger] a.nodes@[i]).repo,
        c.nodes@[i].repo,
    ) by {
        lemma_backups_trans(a.nodes@[i].repo, b.nodes@[i].repo, c.nodes@[i].repo);
    }
}

/// `b` holds every commit of `a`, unchanged, plus the ones written since.
pub open spec fn commits_extended(a: Repo, b: Repo) -> bool {
    &&& a.commits@.len() <= b.commits@.len()
    &&& forall|i: int| 0 <= i < a.commits@.len() ==> b.commits@[i] == a.commits@[i]
}

/// What the replay guarantees for one commit `c` of the range: the commit
/// map covers `c` and its parent, and the rewritten commit sits on the new
/// chain with the substituted tree (clean), the user's resolved tree
/// (conflict), or stands for its parent's rewrite (already applied).
#[verifier::opaque]
pub open spec fn replay_step_ok(
    r0: Repo,
    rf: Repo,
    plan: ReplayPlan,
    ms: Seq<(String, CommitMap)>,
    m: Map<usize, usize>,
    c: usize,
) -> bool {
    let p = r0.commits@[c as int].parent->0;
    &&& m.dom().contains(c)
    &&& m.dom().contains(p)
    &&& match plan.outcome(c) {
        StepOutcome::Clean => {
            &&& m[c] < rf.commits@.len()
            &&& rf.commits@[m[c] as int].parent == Some(m[p])
            &&& tree_substituted(ms, r0.commits@[c as int].tree@, rf.commits@[m[c] as int].tree@)
        },
        StepOutcome::ConflictResolved(tr) => {
            &&& m[c] < rf.commits@.len()
            &&& rf.commits@[m[c] as int].parent == Some(m[p])
            &&& tree_equiv(tr@, rf.commits@[m[c] as int].tree@)
        },
        StepOutcome::AlreadyApplied => m[c] == m[p],
        StepOutcome::StoreFail => false,
    }
}

/// What a successful drive of one node guarantees, relating the repository
/// at entry (`r0`) and at exit (`rf`), the target, the child maps `ms`, the
/// replay outcomes, and the returned commit map `m`.
///
/// When the head already equals the target, the map is exactly
/// `{target -> target}`.  When the head descends from the target, every
/// commit of the replayed range maps to itself, and the base maps to
/// itself.  Otherwise the base maps to the target (the anchor substitution),
/// the map covers exactly the replayed range plus the base, and every
/// replayed commit satisfies [`replay_step_ok`].  In every case HEAD reads
/// as it did at entry.
pub open spec fn driver_node_ok(
    r0: Repo,
    rf: Repo,
    t: usize,
    ms: Seq<(String, CommitMap)>,
    plan: ReplayPlan,
    m: Map<usize, usize>,
) -> bool {
    let hd = r0.spec_head_id();
    &&& commits_extended(r0, rf)
    &&& rf.spec_head_name() == r0.spec_head_name()
    &&& if hd == t {
        &&& m == Map::<usize, usize>::empty().insert(t, t)
        &&& rf.commits@ == r0.commits@
    } else {
        match merge_base_spec(r0.commits@, hd, t) {
            Some(b) => {
                &&& forall|c: usize|
                    #![trigger m.dom().contains(c)]
                    m.dom().contains(c) <==> c == b || range_upto(r0.commits@, hd, b).contains(c)
                &&& if b == t {
                    &&& forall|c: usize| #[trigger] m.dom().contains(c) ==> m[c] == c
                    &&& rf.commits@ == r0.commits@
                } else {
                    &&& m[b] == t
                    &&& m.dom().contains(b)
                    &&& rf.workdir == hd
                    &&& forall|c: usize|
                        #![trigger range_upto(r0.commits@, hd, b).contains(c)]
                        range_upto(r0.commits@, hd, b).contains(c) ==> replay_step_ok(
                            r0,
                            rf,
                            plan,
                            ms,
                            m,
                            c,
                        )
                }
            },
            None => false,
        }
    }
}

/// Restores HEAD to its state at driver entry: detached at the entry commit
/// when the entry name was `HEAD`, else back on the entry branch.
fn restore_entry_head(repo: &mut Repo, name0: &String, hd: usize)
    requires
        hd < old(repo).commits@.len(),
        name0@ == "HEAD"@ || old(repo).branches_map().dom().contains(name0@),
    ensures
        final(repo).commits@ == old(repo).commits@,
        final(repo).branches@ == old(repo).branches@,
        final(repo).workdir == old(repo).workdir,
        final(repo).spec_head_name() == name0@,
        old(repo).wf() ==> final(repo).wf(),
{
    if str_eq(name0.as_str(), "HEAD") {
        repo.set_head_detached(hd);
        proof {
            reveal_strlit("HEAD");
        }
    } else {
        repo.set_head(name0);
    }
}

/// The identity commit map over the replayed range plus its base: what the
/// driver records when the head already descends from the target.
fn identity_map_for_range(repo: &Repo, hd: usize, b: usize) -> (m: CommitMap)
    requires
        repo.wf(),
        hd < repo.commits@.len(),
        chain(repo.commits@, hd).contains(b),
    ensures
        m.inv(),
        forall|c: usize|
            #![trigger m@.dom().contains(c)]
            m@.dom().contains(c) <==> c == b || range_upto(repo.commits@, hd, b).contains(c),
        forall|c: usize| #[trigger] m@.dom().contains(c) ==> m@[c] == c,
{
    let rng = repo.range_to_base(hd, b);
    let mut m = CommitMap::new();
    let mut i: usize = 0;
    while i < rng.len()
        invariant
            m.inv(),
            i <= rng@.len(),
            forall|c: usize|
                #![trigger m@.dom().contains(c)]
                m@.dom().contains(c) <==> rng@.take(i as int).contains(c),
            forall|c: usize| #[trigger] m@.dom().contains(c) ==> m@[c] == c,
        decreases rng@.len() - i,
    {
        let ghost mg = m@;
        let c = rng[i];
        m.insert(c, c);
        proof {
            assert(rng@.take(i + 1).drop_last() =~= rng@.take(i as int));
            assert(rng@.take(i + 1).last() == rng@[i as int]);
            assert forall|x: usize| m@.dom().contains(x) <==> rng@.take(i + 1).contains(x) by {
                if m@.dom().contains(x) {
                    if x == c {
                        assert(rng@.take(i + 1)[i as int] == c);
                    } else {
                        let j = choose|j: int|
                            0 <= j < rng@.take(i as int).len() && rng@.take(i as int)[j] == x;
                        assert(rng@.take(i + 1)[j] == x);
                    }
                }
                if rng@.take(i + 1).contains(x) {
                    let j = choose|j: int|
                        0 <= j < rng@.take(i + 1).len() && #[trigger] rng@.take(i + 1)[j] == x;
                    if j < i {
                        assert(rng@.take(i as int)[j] == x);
                        assert(mg.dom().contains(x));
                    }
                }
            }
        }
        i = i + 1;
    }
    proof {
        assert(rng@.take(rng@.len() as int) =~= rng@);
    }
    m.insert(b, b);
    m
}

/// HEAD sits on the branch of the given name.
pub open spec fn head_on_branch(r: Repo, name: Seq<char>) -> bool {
    match r.head {
        HeadState::OnBranch(n) => n@ == name,
        HeadState::Detached(_) => false,
    }
}

/// The four marker names differ from each other and from `HEAD`.
pub proof fn lemma_marker_names_distinct()
    ensures
        "multi_rebase_old"@ != "multi_rebase_cur"@,
        "multi_rebase_old"@ != "multi_rebase_new"@,
        "multi_rebase_old"@ != "multi_rebase_track"@,
        "multi_rebase_cur"@ != "multi_rebase_new"@,
        "multi_rebase_cur"@ != "multi_rebase_track"@,
        "multi_rebase_new"@ != "multi_rebase_track"@,
        "HEAD"@ != "multi_rebase_old"@,
        "HEAD"@ != "multi_rebase_cur"@,
        "HEAD"@ != "multi_rebase_new"@,
        "HEAD"@ != "multi_rebase_track"@,
{
    reveal_strlit("HEAD");
    reveal_strlit("multi_rebase_old");
    reveal_strlit("multi_rebase_cur");
    reveal_strlit("multi_rebase_new");
    reveal_strlit("multi_rebase_track");
    assert("multi_rebase_old"@.len() == 16);
    assert("multi_rebase_cur"@.len() == 16);
    assert("multi_rebase_new"@.len() == 16);
    assert("multi_rebase_track"@.len() == 18);
    assert("HEAD"@.len() == 4);
    if "multi_rebase_old"@ == "multi_rebase_cur"@ {
        assert("multi_rebase_old"@[13] == "multi_rebase_cur"@[13]);
    }
    if "multi_rebase_old"@ == "multi_rebase_new"@ {
        assert("multi_rebase_old"@[13] == "multi_rebase_new"@[13]);
    }
    if "multi_rebase_cur"@ == "multi_rebase_new"@ {
        assert("multi_rebase_cur"@[13] == "multi_rebase_new"@[13]);
    }
}

/// Performs driver entry at one repository: records the pre-rebase head,
/// creates the backup branch and the four markers at it, and moves HEAD to
/// the rebase marker.  Returns the entry head name and commit.
fn drive_entry(repo: &mut Repo, hh: u8, mm: u8, ss: u8) -> (r: (String, usize))
    requires
        old(repo).wf(),
        hh < 24,
        mm < 60,
        ss < 60,
    ensures
        final(repo).wf(),
        r.0@ == old(repo).spec_head_name(),
        r.1 == old(repo).spec_head_id(),
        r.1 < old(repo).commits@.len(),
        final(repo).commits@ == old(repo).commits@,
        final(repo).workdir == old(repo).workdir,
        all_markers(*final(repo)),
        backups_kept(*old(repo), *final(repo)),
        forall|n: Seq<char>|
            #[trigger] old(repo).branches_map().dom().contains(n) ==> final(repo).branches_map().dom().contains(n),
        head_on_branch(*final(repo), "multi_rebase_new"@),
        final(repo).spec_head_name() == "multi_rebase_new"@,
        final(repo).branches_map()["multi_rebase_old"@] == r.1,
        final(repo).branches_map()["multi_rebase_cur"@] == r.1,
        final(repo).branches_map()["multi_rebase_new"@] == r.1,
        final(repo).branches_map()["multi_rebase_track"@] == r.1,
        final(repo).spec_head_id() == r.1,
        final(repo).branches_map().dom().contains(
            crate::names::spec_backup_name(
                crate::names::after_last_slash(old(repo).spec_head_name()),
                hh as int,
                mm as int,
                ss as int,
            ),
        ),
{
    proof {
        lemma_marker_names_distinct();
        old(repo).lemma_branch_targets_bound();
    }
    let name0 = repo.head_name();
    let hd = repo.head_commit();
    let short = branch_short_name(name0.as_str());
    let bname = backup_branch_name(short.as_str(), hh, mm, ss);
    repo.upsert_branch(&bname, hd);
    let mo = marker_old();
    repo.upsert_branch(&mo, hd);
    let mc = marker_cur();
    repo.upsert_branch(&mc, hd);
    let mt = marker_track();
    repo.upsert_branch(&mt, hd);
    let mn = marker_new();
    repo.upsert_branch(&mn, hd);
    repo.set_head(&mn);
    (name0, hd)
}

proof fn lemma_skip_unroll(s: Seq<usize>, k: int)
    requires
        0 < k <= s.len(),
    ensures
        forall|x: usize|
            #![trigger s.skip(k - 1).contains(x)]
            s.skip(k - 1).contains(x) <==> x == s[k - 1] || s.skip(k).contains(x),
{
    assert forall|x: usize|
        #![trigger s.skip(k - 1).contains(x)]
        s.skip(k - 1).contains(x) <==> x == s[k - 1] || s.skip(k).contains(x) by {
        if s.skip(k - 1).contains(x) {
            let i = choose|i: int|
                0 <= i < s.skip(k - 1).len() && #[trigger] s.skip(k - 1)[i] == x;
            if i > 0 {
                assert(s.skip(k)[i - 1] == x);
            }
        }
        if x == s[k - 1] {
            assert(s.skip(k - 1)[0] == x);
            assert(s.skip(k - 1).contains(x));
        }
        if s.skip(k).contains(x) {
            let i = choose|i: int| 0 <= i < s.skip(k).len() && #[trigger] s.skip(k)[i] == x;
            assert(s.skip(k - 1)[i + 1] == x);
            assert(s.skip(k - 1).contains(x));
        }
    }
}

/// A recorded replay step keeps holding when the repository gains commits
/// and the map gains records for other commits.
proof fn lemma_step_preserved(
    r0: Repo,
    r1: Repo,
    r2: Repo,
    plan: ReplayPlan,
    ms: Seq<(String, CommitMap)>,
    m1: Map<usize, usize>,
    m2: Map<usize, usize>,
    c: usize,
)
    requires
        replay_step_ok(r0, r1, plan, ms, m1, c),
        commits_extended(r1, r2),
        forall|x: usize|
            #[trigger] m1.dom().contains(x) ==> m2.dom().contains(x) && m2[x] == m1[x],
    ensures
        replay_step_ok(r0, r2, plan, ms, m2, c),
{
    reveal(replay_step_ok);
    let p = r0.commits@[c as int].parent->0;
    assert(m1.dom().contains(c));
    assert(m1.dom().contains(p));
    match plan.outcome(c) {
        StepOutcome::Clean => {
            assert(r2.commits@[m1[c] as int] == r1.commits@[m1[c] as int]);
        },
        StepOutcome::ConflictResolved(tr) => {
            assert(r2.commits@[m1[c] as int] == r1.commits@[m1[c] as int]);
        },
        StepOutcome::AlreadyApplied => {},
        StepOutcome::StoreFail => {},
    }
}

/// A recorded replay step only reads the commit table of the entry
/// repository, so it carries over to any repository with the same table.
proof fn lemma_step_same_commits(
    ra: Repo,
    rb: Repo,
    rf: Repo,
    plan: ReplayPlan,
    ms: Seq<(String, CommitMap)>,
    m: Map<usize, usize>,
    c: usize,
)
    requires
        replay_step_ok(ra, rf, plan, ms, m, c),
        ra.commits@ == rb.commits@,
    ensures
        replay_step_ok(rb, rf, plan, ms, m, c),
{
    reveal(replay_step_ok);
}

/// Replays the range onto the target: writes the rewritten commits with
/// their submodule pins substituted, keeps the markers moving, and returns
/// the commit map seeded with the anchor substitution.
#[verifier::rlimit(100)]
fn replay_range(
    repo: &mut Repo,
    hd: usize,
    rng: &Vec<usize>,
    b: usize,
    t: usize,
    maps: &Vec<(String, CommitMap)>,
    plan: &ReplayPlan,
) -> (r: Result<CommitMap, DriverError>)
    requires
        old(repo).wf(),
        head_on_branch(*old(repo), "multi_rebase_new"@),
        hd < old(repo).commits@.len(),
        t < old(repo).commits@.len(),
        b < old(repo).commits@.len(),
        rng@ == range_upto(old(repo).commits@, hd, b),
        chain(old(repo).commits@, hd) == range_upto(old(repo).commits@, hd, b) + chain(
            old(repo).commits@,
            b,
        ),
    ensures
        final(repo).wf(),
        commits_extended(*old(repo), *final(repo)),
        final(repo).head == old(repo).head,
        final(repo).workdir == old(repo).workdir || final(repo).workdir
            >= old(repo).commits@.len(),
        backups_kept(*old(repo), *final(repo)),
        forall|n: Seq<char>|
            #[trigger] old(repo).branches_map().dom().contains(n) ==> final(repo).branches_map().dom().contains(n),
        match r {
            Ok(m) => {
                &&& m.inv()
                &&& forall|c: usize|
                    #![trigger m@.dom().contains(c)]
                    m@.dom().contains(c) <==> c == b || rng@.contains(c)
                &&& m@.dom().contains(b)
                &&& m@[b] == t
                &&& forall|c: usize|
                    #[trigger]
                    rng@.contains(c) ==> replay_step_ok(
                        *old(repo),
                        *final(repo),
                        *plan,
                        maps@,
                        m@,
                        c,
                    )
            },
            Err(e) => e == DriverError::Store && exists|c: usize|
                #[trigger] rng@.contains(c) && plan.outcome(c) == StepOutcome::StoreFail,
        },
{
    let ghost r0 = *old(repo);
    proof {
        crate::repo::lemma_chain_elems(r0.commits@, hd);
        crate::repo::lemma_chain_elems(r0.commits@, b);
        let ch = chain(r0.commits@, hd);
        assert(forall|i: int| 0 <= i < rng@.len() ==> ch[i] == rng@[i]);
        assert(ch[rng@.len() as int] == chain(r0.commits@, b)[0]);
        assert(ch[rng@.len() as int] == b);
    }
    let mut m = CommitMap::new();
    m.insert(b, t);
    let mut cur_new: usize = t;
    let mut k: usize = rng.len();
    proof {
        assert(rng@.skip(k as int) =~= Seq::<usize>::empty());
    }
    while k > 0
        invariant
            r0 == *old(repo),
            repo.wf(),
            commits_extended(r0, *repo),
            repo.head == r0.head,
            repo.workdir == r0.workdir || repo.workdir >= r0.commits@.len(),
            head_on_branch(r0, "multi_rebase_new"@),
            backups_kept(r0, *repo),
            forall|n: Seq<char>|
                #[trigger] r0.branches_map().dom().contains(n) ==> repo.branches_map().dom()
                    .contains(n),
            hd < r0.commits@.len(),
            t < r0.commits@.len(),
            b < r0.commits@.len(),
            rng@ == range_upto(r0.commits@, hd, b),
            chain(r0.commits@, hd) == range_upto(r0.commits@, hd, b) + chain(r0.commits@, b),
            k <= rng@.len(),
            m.inv(),
            cur_new < repo.commits@.len(),
            forall|c: usize|
                #![trigger m@.dom().contains(c)]
                m@.dom().contains(c) <==> c == b || rng@.skip(k as int).contains(c),
            m@.dom().contains(b),
            m@[b] == t,
            cur_new == m@[(if k == rng@.len() {
                b
            } else {
                rng@[k as int]
            })],
            m@.dom().contains(
                (if k == rng@.len() {
                    b
                } else {
                    rng@[k as int]
                }),
            ),
            forall|c: usize|
                #[trigger]
                rng@.skip(k as int).contains(c) ==> replay_step_ok(
                    r0,
                    *repo,
                    *plan,
                    maps@,
                    m@,
                    c,
                ),
        decreases k,
    {
        let ghost ch = chain(r0.commits@, hd);
        let ghost prev: usize = if k == rng@.len() {
            b
        } else {
            rng@[k as int]
        };
        proof {
            crate::repo::lemma_chain_elems(r0.commits@, hd);
            crate::repo::lemma_chain_elems(r0.commits@, b);
            assert(forall|i: int| 0 <= i < rng@.len() ==> ch[i] == rng@[i]);
            assert(ch[rng@.len() as int] == chain(r0.commits@, b)[0]);
            assert(ch[rng@.len() as int] == b);
            assert(ch[k - 1] == rng@[k - 1]);
            assert(ch[k as int] == prev);
            assert(r0.commits@[rng@[k - 1] as int].parent == Some(prev));
            assert(rng@[k - 1] < r0.commits@.len());
            assert(rng@[k - 1] > b);
            if k < rng@.len() {
                assert(rng@[k - 1] != rng@[k as int]);
            }
        }
        let c = rng[k - 1];
        proof {
            assert(repo.commits@[c as int] == r0.commits@[c as int]);
        }
        let ghost repo_before = *repo;
        let ghost m_before = m@;
        let mtk = marker_track();
        repo.upsert_branch(&mtk, c);
        let outcome = plan.lookup(c);
        let applied_or_fail: bool = match outcome {
            Some(StepOutcome::StoreFail) => true,
            Some(StepOutcome::AlreadyApplied) => true,
            _ => false,
        };
        if applied_or_fail {
            let fail: bool = matches!(outcome, Some(StepOutcome::StoreFail));
            if fail {
                proof {
                    assert(rng@[k - 1] == c);
                    assert(rng@.contains(c));
                    assert(plan.outcome(c) == StepOutcome::StoreFail);
                }
                return Err(DriverError::Store);
            }
            m.insert(c, cur_new);
            proof {
                reveal(replay_step_ok);
                assert(m@ == m_before.insert(c, cur_new));
                assert(plan.outcome(c) == StepOutcome::AlreadyApplied);
                assert(replay_step_ok(r0, *repo, *plan, maps@, m@, c));
            }
        } else {
            let tree2 = match outcome {
                Some(StepOutcome::ConflictResolved(tr)) => clone_tree(tr),
                _ => substitute_tree(&repo.commits[c].tree, maps),
            };
            let new_id = repo.add_commit(Some(cur_new), tree2);
            let mcu = marker_cur();
            repo.upsert_branch(&mcu, new_id);
            repo.reset_hard(new_id);
            m.insert(c, new_id);
            cur_new = new_id;
            proof {
                reveal(replay_step_ok);
                assert(m@ == m_before.insert(c, new_id));
                assert(repo.commits@[new_id as int].parent == Some(m@[prev]));
                assert(replay_step_ok(r0, *repo, *plan, maps@, m@, c));
            }
        }
        proof {
            lemma_skip_unroll(rng@, k as int);
            assert forall|j: int| k <= j < rng@.len() implies rng@[j] != c by {
                assert(ch[j] == rng@[j]);
                assert(ch[k - 1] > ch[j]);
            }
            if m_before.dom().contains(c) {
                let j = choose|j: int|
                    0 <= j < rng@.skip(k as int).len() && #[trigger] rng@.skip(k as int)[j] == c;
                assert(rng@[k + j] == c);
            }
            assert(!m_before.dom().contains(c));
            assert forall|x: usize| #[trigger] rng@.skip(k as int).contains(x) implies
                replay_step_ok(r0, *repo, *plan, maps@, m@, x) by {
                assert(replay_step_ok(r0, repo_before, *plan, maps@, m_before, x));
                lemma_step_preserved(r0, repo_before, *repo, *plan, maps@, m_before, m@, x);
            }
        }
        k = k - 1;
    }
    proof {
        assert(rng@.skip(0) =~= rng@);
    }
    Ok(m)
}

/// `p` is the path of one of the node's children.
pub open spec fn is_child_path(f: Forest, node: int, p: Seq<char>) -> bool {
    exists|k: int|
        0 <= k < f.nodes@[node].children@.len() && p == f.nodes@[(#[trigger] f.nodes@[
            node].children@[k]) as int].path@
}

/// Every collected child map is keyed by the path of one of the node's
/// children.
pub open spec fn maps_keyed_by_children(f: Forest, node: int, ms: Seq<(String, CommitMap)>) -> bool {
    forall|j: int| 0 <= j < ms.len() ==> is_child_path(f, node, (#[trigger] ms[j].0)@)
}

/// When a rebase of a repository without child submodules is owed success:
/// the head already equals the target, or the two share history and either
/// the head descends from the target or no commit of the replayed range has
/// a store failure in stock.
pub open spec fn leaf_rebase_succeeds(r0: Repo, t: usize, plan: ReplayPlan) -> bool {
    let hd = r0.spec_head_id();
    hd == t || match merge_base_spec(r0.commits@, hd, t) {
        Some(b) => b == t || forall|c: usize|
            #[trigger] range_upto(r0.commits@, hd, b).contains(c) ==> plan.outcome(c)
                != StepOutcome::StoreFail,
        None => false,
    }
}

/// The keying of collected maps only depends on the forest's shape.
proof fn lemma_maps_keyed_shape(a: Forest, b: Forest, node: int, ms: Seq<(String, CommitMap)>)
    requires
        same_shape(a, b),
        0 <= node < a.nodes@.len(),
        forest_wf(a) || forest_wf(b),
        maps_keyed_by_children(a, node, ms),
    ensures
        maps_keyed_by_children(b, node, ms),
{
    assert forall|j: int| 0 <= j < ms.len() implies is_child_path(b, node, (#[trigger] ms[j].0)@) by {
        assert(is_child_path(a, node, ms[j].0@));
        let k = choose|k: int|
            0 <= k < a.nodes@[node].children@.len() && ms[j].0@ == a.nodes@[(#[trigger] a.nodes@[
            node].children@[k]) as int].path@;
        assert(b.nodes@[node].children@ == a.nodes@[node].children@);
        assert(0 <= k < b.nodes@[node].children@.len() && ms[j].0@ == b.nodes@[(b.nodes@[
            node].children@[k]) as int].path@);
    }
}

/// Rebases the subtree rooted at `node` onto `target`: children first, in
/// post-order, then the node itself, replaying its range with every
/// submodule pin substituted through the children's commit maps.  Returns
/// the node's commit map and the child maps keyed by path, including maps
/// for submodules first pinned inside the rebase range.
///
/// On success the returned map satisfies [`driver_node_ok`]: the anchor
/// substitution, the exact coverage of the replayed range, the fast-path
/// identities, and the substituted trees of the rewritten commits.  On any
/// outcome, backup branches are kept at every node, and every node either
/// keeps its branches untouched or carries the rollback marker.
#[verifier::rlimit(100)]
pub fn rebase_forest(
    f: &mut Forest,
    node: usize,
    target: usize,
    plans: &Vec<ReplayPlan>,
    hh: u8,
    mm: u8,
    ss: u8,
) -> (r: Result<(CommitMap, Vec<(String, CommitMap)>), DriverError>)
    requires
        forest_wf(*old(f)),
        node < old(f).nodes@.len(),
        target < old(f).nodes@[node as int].repo.commits@.len(),
        plans@.len() == old(f).nodes@.len(),
        hh < 24,
        mm < 60,
        ss < 60,
    ensures
        same_shape(*old(f), *final(f)),
        forest_wf(*final(f)),
        forall|i: int| 0 <= i < node ==> final(f).nodes@[i] == old(f).nodes@[i],
        forest_backups_kept(*old(f), *final(f)),
        nodes_clean_or_marked(*old(f), *final(f)),
        old(f).nodes@[node as int].children@.len() == 0 ==> (r is Ok <==> leaf_rebase_succeeds(
            old(f).nodes@[node as int].repo,
            target,
            plans@[node as int],
        )),
        match r {
            Ok(p) => {
                &&& nodes_clean_or_all_markers(*old(f), *final(f))
                &&& p.0.inv()
                &&& maps_keyed_by_children(*final(f), node as int, p.1@)
                &&& driver_node_ok(
                    old(f).nodes@[node as int].repo,
                    final(f).nodes@[node as int].repo,
                    target,
                    p.1@,
                    plans@[node as int],
                    p.0@,
                )
            },
            Err(_) => true,
        },
    decreases old(f).nodes@.len() - node,
{
    let ghost f0 = *f;
    let ghost r0 = f0.nodes@[node as int].repo;

    // Post-order traversal: rebase every child pinned in the target tree,
    // collecting its commit map under its path.
    let mut maps: Vec<(String, CommitMap)> = Vec::new();
    let nchild = f.nodes[node].children.len();
    let mut ci_idx: usize = 0;
    while ci_idx < nchild
        invariant
            f0 == *old(f),
            forest_wf(f0),
            forest_wf(*f),
            same_shape(f0, *f),
            node < f0.nodes@.len(),
            plans@.len() == f0.nodes@.len(),
            nchild == f0.nodes@[node as int].children@.len(),
            ci_idx <= nchild,
            maps_keyed_by_children(*f, node as int, maps@),
            forall|i: int| 0 <= i <= node ==> f.nodes@[i] == f0.nodes@[i],
            forest_backups_kept(f0, *f),
            nodes_clean_or_marked(f0, *f),
            nodes_clean_or_all_markers(f0, *f),
            target < f0.nodes@[node as int].repo.commits@.len(),
            hh < 24,
            mm < 60,
            ss < 60,
        decreases nchild - ci_idx,
    {
        let ci = f.nodes[node].children[ci_idx];
        proof {
            assert(f.nodes@[node as int].children@[ci_idx as int] == ci);
            assert(node < ci < f.nodes@.len());
        }
        let ct_opt = submodule_at_tree(
            &f.nodes[node].repo.commits[target].tree,
            &f.nodes[ci].path,
        );
        if let Some(ct) = ct_opt {
            if ct >= f.nodes[ci].repo.commits.len() {
                return Err(DriverError::InvalidPin);
            }
            let ghost fmid = *f;
            let res = rebase_forest(f, ci, ct, plans, hh, mm, ss);
            proof {
                lemma_touch_trans(f0, fmid, *f);
                lemma_forest_backups_trans(f0, fmid, *f);
                assert(forall|i: int| 0 <= i <= node ==> f.nodes@[i] == fmid.nodes@[i]);
                lemma_maps_keyed_shape(fmid, *f, node as int, maps@);
            }
            match res {
                Ok(p) => {
                    proof {
                        lemma_touch_trans_all(f0, fmid, *f);
                    }
                    let ghost mg = maps@;
                    let cpath = f.nodes[ci].path.clone();
                    maps.push((cpath, p.0));
                    proof {
                        assert(forall|j: int| 0 <= j < mg.len() ==> maps@[j] == mg[j]);
                        assert(0 <= ci_idx < f.nodes@[node as int].children@.len()
                            && maps@[mg.len() as int].0@ == f.nodes@[(f.nodes@[
                            node as int].children@[ci_idx as int]) as int].path@);
                        assert(is_child_path(*f, node as int, maps@[mg.len() as int].0@));
                    }
                },
                Err(e) => {
                    return Err(e);
                },
            }
        }
        ci_idx = ci_idx + 1;
    }

    // Driver entry: backup, markers, HEAD onto the rebase marker.
    proof {
        assert(f.nodes@[node as int] == f0.nodes@[node as int]);
        lemma_maps_keyed_shape(*f, f0, node as int, maps@);
    }
    let entry = drive_entry(&mut f.nodes[node].repo, hh, mm, ss);
    let name0 = entry.0;
    let hd = entry.1;
    let ghost f1 = *f;
    proof {
        assert(f.nodes@[node as int].repo.commits@ == r0.commits@);
        assert(name0@ == "HEAD"@ || f.nodes@[node as int].repo.branches_map().dom().contains(
            name0@,
        )) by {
            match r0.head {
                HeadState::Detached(_) => {},
                HeadState::OnBranch(n) => {
                    assert(r0.branches_map().dom().contains(n@));
                },
            }
        }
        assert(all_markers(f1.nodes@[node as int].repo));
        assert(same_shape(f0, f1));
        assert(forest_wf(f1));
        assert(nodes_clean_or_marked(f0, f1));
        assert(nodes_clean_or_all_markers(f0, f1));
        assert(forest_backups_kept(f0, f1));
    }

    // Fast path: nothing to rebase.
    if hd == target {
        let mmap = CommitMap::singleton(target, target);
        restore_entry_head(&mut f.nodes[node].repo, &name0, hd);
        proof {
            assert(f.nodes@[node as int].repo.branches_map()
                == f1.nodes@[node as int].repo.branches_map());
            lemma_touch_trans(f0, f1, *f);
            lemma_touch_trans_all(f0, f1, *f);
            lemma_forest_backups_trans(f0, f1, *f);
            lemma_maps_keyed_shape(f0, *f, node as int, maps@);
        }
        return Ok((mmap, maps));
    }

    // Compute the merge base; disjoint histories abort.
    let base_opt = f.nodes[node].repo.merge_base(hd, target);
    let base = match base_opt {
        Some(b) => b,
        None => {
            proof {
                lemma_touch_trans(f0, f1, *f);
                lemma_forest_backups_trans(f0, f1, *f);
            }
            return Err(DriverError::NoCommonHistory);
        },
    };
    proof {
        crate::repo::lemma_merge_base_common(r0.commits@, hd, target);
        crate::repo::lemma_chain_elems(r0.commits@, hd);
        let chn = chain(r0.commits@, hd);
        let bi = choose|bi: int| 0 <= bi < chn.len() && chn[bi] == base;
        assert(chn[bi] < r0.commits@.len());
    }

    // Fast path: the head already descends from the target; every replayed
    // commit stands for itself.
    if base == target {
        let mmap = identity_map_for_range(&f.nodes[node].repo, hd, base);
        restore_entry_head(&mut f.nodes[node].repo, &name0, hd);
        proof {
            assert(f.nodes@[node as int].repo.branches_map()
                == f1.nodes@[node as int].repo.branches_map());
            lemma_touch_trans(f0, f1, *f);
            lemma_touch_trans_all(f0, f1, *f);
            lemma_forest_backups_trans(f0, f1, *f);
            lemma_maps_keyed_shape(f0, *f, node as int, maps@);
        }
        return Ok((mmap, maps));
    }

    // A submodule first pinned inside the rebase range has no collected map
    // yet: detach it at its final head and rebase it against the pin of the
    // oldest replayed tree that holds it.
    let rng = f.nodes[node].repo.range_to_base(hd, base);
    proof {
        crate::repo::lemma_chain_elems(r0.commits@, hd);
        assert forall|i: int| 0 <= i < rng@.len() implies (#[trigger] rng@[i])
            < r0.commits@.len() by {
            assert((range_upto(r0.commits@, hd, base) + chain(r0.commits@, base))[i] == rng@[i]);
            assert(chain(r0.commits@, hd)[i] == rng@[i]);
        }
    }
    let mut ci_idx2: usize = 0;
    while ci_idx2 < nchild
        invariant
            f0 == *old(f),
            forest_wf(f0),
            forest_wf(*f),
            same_shape(f0, *f),
            node < f0.nodes@.len(),
            plans@.len() == f0.nodes@.len(),
            nchild == f0.nodes@[node as int].children@.len(),
            ci_idx2 <= nchild,
            maps_keyed_by_children(*f, node as int, maps@),
            forall|i: int| 0 <= i < node ==> f.nodes@[i] == f0.nodes@[i],
            f.nodes@[node as int] == f1.nodes@[node as int],
            f1.nodes@[node as int].repo.commits@ == r0.commits@,
            forest_backups_kept(f0, *f),
            nodes_clean_or_marked(f0, *f),
            nodes_clean_or_all_markers(f0, *f),
            hh < 24,
            mm < 60,
            ss < 60,
            hd < r0.commits@.len(),
            base < r0.commits@.len(),
            rng@ == range_upto(r0.commits@, hd, base),
            chain(r0.commits@, hd) == range_upto(r0.commits@, hd, base) + chain(
                r0.commits@,
                base,
            ),
            forall|i: int| 0 <= i < rng@.len() ==> (#[trigger] rng@[i]) < r0.commits@.len(),
        decreases nchild - ci_idx2,
    {
        let ci = f.nodes[node].children[ci_idx2];
        proof {
            assert(f.nodes@[node as int].children@[ci_idx2 as int] == ci);
            assert(node < ci < f.nodes@.len());
            crate::repo::lemma_chain_elems(r0.commits@, hd);
        }
        let known = child_map_for(&maps, &f.nodes[ci].path);
        let missing = known.is_none();
        if missing {
            let mut idx: usize = rng.len();
            let mut installed = false;
            while idx > 0 && !installed
                invariant
                    f0 == *old(f),
                    forest_wf(f0),
                    forest_wf(*f),
                    same_shape(f0, *f),
                    node < f0.nodes@.len(),
                    node < ci < f.nodes@.len(),
                    ci == f.nodes@[node as int].children@[ci_idx2 as int],
                    ci_idx2 < nchild,
                    nchild == f0.nodes@[node as int].children@.len(),
                    plans@.len() == f0.nodes@.len(),
                    maps_keyed_by_children(*f, node as int, maps@),
                    forall|i: int| 0 <= i < node ==> f.nodes@[i] == f0.nodes@[i],
                    f.nodes@[node as int] == f1.nodes@[node as int],
                    f1.nodes@[node as int].repo.commits@ == r0.commits@,
                    forest_backups_kept(f0, *f),
                    nodes_clean_or_marked(f0, *f),
                    nodes_clean_or_all_markers(f0, *f),
                    hh < 24,
                    mm < 60,
                    ss < 60,
                    hd < r0.commits@.len(),
                    idx <= rng@.len(),
                    forall|i: int|
                        0 <= i < rng@.len() ==> (#[trigger] rng@[i]) < r0.commits@.len(),
                decreases idx,
            {
                let c = rng[idx - 1];
                let th_opt = submodule_at_tree(
                    &f.nodes[node].repo.commits[c].tree,
                    &f.nodes[ci].path,
                );
                if let Some(th) = th_opt {
                    let fh_opt = submodule_at_tree(
                        &f.nodes[node].repo.commits[hd].tree,
                        &f.nodes[ci].path,
                    );
                    let fh = match fh_opt {
                        Some(fh) => fh,
                        None => {
                            return Err(DriverError::MissingChild);
                        },
                    };
                    if fh >= f.nodes[ci].repo.commits.len() || th
                        >= f.nodes[ci].repo.commits.len() {
                        return Err(DriverError::InvalidPin);
                    }
                    f.nodes[ci].repo.set_head_detached(fh);
                    let ghost fdet = *f;
                    proof {
                        assert(fdet.nodes@[ci as int].repo.wf());
                        assert(forest_wf(fdet));
                        assert(nodes_clean_or_marked(f0, fdet));
                        assert(nodes_clean_or_all_markers(f0, fdet));
                        assert(forest_backups_kept(f0, fdet));
                    }
                    let res = rebase_forest(f, ci, th, plans, hh, mm, ss);
                    proof {
                        lemma_touch_trans(f0, fdet, *f);
                        lemma_forest_backups_trans(f0, fdet, *f);
                        assert(forall|i: int| 0 <= i < node ==> f.nodes@[i] == fdet.nodes@[i]);
                        assert(f.nodes@[node as int] == fdet.nodes@[node as int]);
                        lemma_maps_keyed_shape(fdet, *f, node as int, maps@);
                    }
                    match res {
                        Ok(p) => {
                            proof {
                                lemma_touch_trans_all(f0, fdet, *f);
                            }
                            let ghost mg = maps@;
                            let cpath = f.nodes[ci].path.clone();
                            maps.push((cpath, p.0));
                            installed = true;
                            proof {
                                assert(forall|j: int| 0 <= j < mg.len() ==> maps@[j] == mg[j]);
                                assert(0 <= ci_idx2 < f.nodes@[node as int].children@.len()
                                    && maps@[mg.len() as int].0@ == f.nodes@[(f.nodes@[
                                    node as int].children@[ci_idx2 as int]) as int].path@);
                                assert(is_child_path(*f, node as int, maps@[mg.len() as int].0@));
                            }
                        },
                        Err(e) => {
                            return Err(e);
                        },
                    }
                }
                idx = idx - 1;
            }
        }
        ci_idx2 = ci_idx2 + 1;
    }

    // Replay the range onto the target.
    let ghost fd = *f;
    let res = replay_range(
        &mut f.nodes[node].repo,
        hd,
        &rng,
        base,
        target,
        &maps,
        &plans[node],
    );
    let ghost f2 = *f;
    proof {
        assert(forall|i: int|
            0 <= i < f2.nodes@.len() && i != node ==> f2.nodes@[i] == fd.nodes@[i]);
        assert(all_markers(fd.nodes@[node as int].repo));
        assert(f2.nodes@[node as int].repo.branches_map().dom().contains("multi_rebase_old"@));
        assert(all_markers(f2.nodes@[node as int].repo));
        assert(nodes_clean_or_marked(f0, f2));
        assert(nodes_clean_or_all_markers(f0, f2));
        assert forall|i: int| 0 <= i < f0.nodes@.len() implies backups_kept(
            (#[trigger] f0.nodes@[i]).repo,
            f2.nodes@[i].repo,
        ) by {
            if i == node {
                lemma_backups_trans(f0.nodes@[i].repo, fd.nodes@[i].repo, f2.nodes@[i].repo);
            }
        }
    }
    let mmap = match res {
        Ok(mm) => mm,
        Err(e) => {
            return Err(e);
        },
    };

    // Restore HEAD to its entry state and reset the working tree to it.
    restore_entry_head(&mut f.nodes[node].repo, &name0, hd);
    f.nodes[node].repo.reset_hard(hd);
    proof {
        assert(same_shape(f0, *f));
        assert(forest_wf(*f));
        lemma_maps_keyed_shape(fd, *f, node as int, maps@);
        assert(forall|i: int|
            0 <= i < f.nodes@.len() && i != node ==> f.nodes@[i] == f2.nodes@[i]);
        assert(f.nodes@[node as int].repo.branches_map().dom().contains("multi_rebase_old"@));
        assert(all_markers(f.nodes@[node as int].repo));
        assert(nodes_clean_or_marked(f0, *f));
        assert(nodes_clean_or_all_markers(f0, *f));
        assert forall|i: int| 0 <= i < f0.nodes@.len() implies backups_kept(
            (#[trigger] f0.nodes@[i]).repo,
            f.nodes@[i].repo,
        ) by {
            if i == node {
                lemma_backups_trans(f0.nodes@[i].repo, f2.nodes@[i].repo, f.nodes@[i].repo);
            }
        }
        assert(f.nodes@[node as int].repo.commits@ == f2.nodes@[node as int].repo.commits@);
        assert forall|c: usize| #[trigger] rng@.contains(c) implies replay_step_ok(
            r0,
            f.nodes@[node as int].repo,
            plans@[node as int],
            maps@,
            mmap@,
            c,
        ) by {
            lemma_step_same_commits(
                fd.nodes@[node as int].repo,
                r0,
                f2.nodes@[node as int].repo,
                plans@[node as int],
                maps@,
                mmap@,
                c,
            );
            lemma_step_preserved(
                r0,
                f2.nodes@[node as int].repo,
                f.nodes@[node as int].repo,
                plans@[node as int],
                maps@,
                mmap@,
                mmap@,
                c,
            );
        }
        assert(driver_node_ok(
            r0,
            f.nodes@[node as int].repo,
            target,
            maps@,
            plans@[node as int],
            mmap@,
        ));
        assert forall|c: usize|
            #[trigger] range_upto(r0.commits@, hd, base).contains(c) implies plans@[
            node as int].outcome(c) != StepOutcome::StoreFail by {
            reveal(replay_step_ok);
            assert(rng@.contains(c));
            assert(replay_step_ok(
                r0,
                f.nodes@[node as int].repo,
                plans@[node as int],
                maps@,
                mmap@,
                c,
            ));
        }
    }
    Ok((mmap, maps))
}

/// Records the HEAD reference name of every node, so finalization and
/// rollback can restore branch selections.
pub fn collect_head_names(f: &Forest) -> (r: Vec<String>)
    ensures
        r@.len() == f.nodes@.len(),
        forall|i: int| 0 <= i < f.nodes@.len() ==> (#[trigger] r@[i])@ == f.nodes@[i].repo.spec_head_name(),
{
    let mut out: Vec<String> = Vec::new();
    let mut i: usize = 0;
    while i < f.nodes.len()
        invariant
            i <= f.nodes@.len(),
            out@.len() == i,
            forall|j: int|
                0 <= j < i ==> (#[trigger] out@[j])@ == f.nodes@[j].repo.spec_head_name(),
        decreases f.nodes@.len() - i,
    {
        out.push(f.nodes[i].repo.head_name());
        i = i + 1;
    }
    out
}

/// What finalization does to one node: where the rebase marker existed, the
/// working tree now sits at the rebased head, the original branch (when one
/// was selected) points there, and no marker branch remains; every other
/// node is untouched.  Backups are kept either way.
pub open spec fn finalized_node(a: RepoNode, b: RepoNode, nm: Seq<char>) -> bool {
    if a.repo.branches_map().dom().contains("multi_rebase_new"@) {
        &&& no_markers(b.repo)
        &&& b.repo.workdir == a.repo.branches_map()["multi_rebase_new"@]
        &&& b.repo.commits@ == a.repo.commits@
        &&& (nm != "HEAD"@ ==> b.repo.spec_head_name() == nm && b.repo.branches_map().dom()
            .contains(nm) && b.repo.branches_map()[nm] == a.repo.branches_map()[
            "multi_rebase_new"@])
        &&& (nm == "HEAD"@ ==> b.repo.head == HeadState::Detached(
            a.repo.branches_map()["multi_rebase_new"@],
        ))
        &&& backups_kept(a.repo, b.repo)
    } else {
        b == a
    }
}

/// What rollback does to one node: where the rollback marker existed, the
/// working tree is reset to the pre-rebase head it holds, the original
/// branch (when one was selected) points there, and no marker branch
/// remains; every other node is untouched.
pub open spec fn rolled_back_node(a: RepoNode, b: RepoNode, nm: Seq<char>) -> bool {
    if a.repo.branches_map().dom().contains("multi_rebase_old"@) {
        &&& no_markers(b.repo)
        &&& b.repo.workdir == a.repo.branches_map()["multi_rebase_old"@]
        &&& b.repo.commits@ == a.repo.commits@
        &&& (nm != "HEAD"@ ==> b.repo.spec_head_name() == nm && b.repo.branches_map().dom()
            .contains(nm) && b.repo.branches_map()[nm] == a.repo.branches_map()[
            "multi_rebase_old"@])
        &&& (nm == "HEAD"@ ==> b.repo.head == HeadState::Detached(
            a.repo.branches_map()["multi_rebase_old"@],
        ))
        &&& backups_kept(a.repo, b.repo)
    } else {
        b == a
    }
}

/// Applies one finalize-or-rollback step to a repository: point HEAD at the
/// recorded name, reset hard to `tgt`, and delete the four markers.
fn settle_repo(repo: &mut Repo, nm: &String, tgt: usize)
    requires
        old(repo).wf(),
        tgt < old(repo).commits@.len(),
        !is_marker_branch(nm@),
    ensures
        final(repo).wf(),
        final(repo).commits@ == old(repo).commits@,
        final(repo).workdir == tgt,
        no_markers(*final(repo)),
        nm@ != "HEAD"@ ==> final(repo).spec_head_name() == nm@ && final(repo).branches_map().dom().contains(nm@) && final(repo).branches_map()[nm@] == tgt,
        nm@ == "HEAD"@ ==> final(repo).head == HeadState::Detached(tgt),
        backups_kept(*old(repo), *final(repo)),
{
    proof {
        lemma_marker_names_distinct();
        old(repo).lemma_branch_targets_bound();
    }
    if str_eq(nm.as_str(), "HEAD") {
        repo.set_head_detached(tgt);
    } else {
        repo.set_head(nm);
    }
    repo.reset_hard(tgt);
    let mo = marker_old();
    repo.delete_branch(&mo);
    let mc = marker_cur();
    repo.delete_branch(&mc);
    let mn = marker_new();
    repo.delete_branch(&mn);
    let mt = marker_track();
    repo.delete_branch(&mt);
    proof {
        assert forall|n: Seq<char>|
            spec_backup_branch(n) && #[trigger] old(repo).branches_map().dom().contains(n)
                implies final(repo).branches_map().dom().contains(n) by {
            lemma_marker_not_backup("multi_rebase_old"@);
            lemma_marker_not_backup("multi_rebase_cur"@);
            lemma_marker_not_backup("multi_rebase_new"@);
            lemma_marker_not_backup("multi_rebase_track"@);
            if spec_backup_branch(nm@) {
            }
        }
    }
}

/// Finalization: at every node where the rebase marker exists, advance the
/// recorded original branch to the rebased head, reset the working tree to
/// it, and delete the four markers; leave every other node untouched.
/// Backup branches are never deleted.
pub fn finalize_forest(f: &mut Forest, names: &Vec<String>)
    requires
        forest_wf(*old(f)),
        names@.len() == old(f).nodes@.len(),
        forall|i: int| 0 <= i < names@.len() ==> !is_marker_branch((#[trigger] names@[i])@),
    ensures
        same_shape(*old(f), *final(f)),
        forest_wf(*final(f)),
        forest_backups_kept(*old(f), *final(f)),
        forall|i: int|
            0 <= i < old(f).nodes@.len() ==> finalized_node(
                old(f).nodes@[i],
                #[trigger] final(f).nodes@[i],
                names@[i]@,
            ),
{
    let ghost f0 = *f;
    let mn = marker_new();
    let mut i: usize = 0;
    while i < f.nodes.len()
        invariant
            f0 == *old(f),
            forest_wf(f0),
            forest_wf(*f),
            same_shape(f0, *f),
            mn@ == "multi_rebase_new"@,
            names@.len() == f0.nodes@.len(),
            forall|k: int| 0 <= k < names@.len() ==> !is_marker_branch((#[trigger] names@[k])@),
            i <= f0.nodes@.len(),
            forall|j: int| i <= j < f0.nodes@.len() ==> f.nodes@[j] == f0.nodes@[j],
            forall|j: int|
                0 <= j < i ==> finalized_node(f0.nodes@[j], #[trigger] f.nodes@[j], names@[j]@),
        decreases f0.nodes@.len() - i,
    {
        let nt_opt = f.nodes[i].repo.find_branch(&mn);
        if let Some(nt) = nt_opt {
            proof {
                f.nodes@[i as int].repo.lemma_branch_targets_bound();
            }
            settle_repo(&mut f.nodes[i].repo, &names[i], nt);
        }
        i = i + 1;
    }
    proof {
        assert forall|i: int| 0 <= i < f0.nodes@.len() implies backups_kept(
            (#[trigger] f0.nodes@[i]).repo,
            f.nodes@[i].repo,
        ) by {
            assert(finalized_node(f0.nodes@[i], f.nodes@[i], names@[i]@));
        }
    }
}

/// Rollback: at every node where the rollback marker exists, point the
/// recorded original branch back at the pre-rebase head, reset the working
/// tree to it, and delete the four markers; leave every other node
/// untouched.  Backup branches are never deleted.
pub fn rollback_forest(f: &mut Forest, names: &Vec<String>)
    requires
        forest_wf(*old(f)),
        names@.len() == old(f).nodes@.len(),
        forall|i: int| 0 <= i < names@.len() ==> !is_marker_branch((#[trigger] names@[i])@),
    ensures
        same_shape(*old(f), *final(f)),
        forest_wf(*final(f)),
        forest_backups_kept(*old(f), *final(f)),
        forall|i: int|
            0 <= i < old(f).nodes@.len() ==> rolled_back_node(
                old(f).nodes@[i],
                #[trigger] final(f).nodes@[i],
                names@[i]@,
            ),
{
    let ghost f0 = *f;
    let mo = marker_old();
    let mut i: usize = 0;
    while i < f.nodes.len()
        invariant
            f0 == *old(f),
            forest_wf(f0),
            forest_wf(*f),
            same_shape(f0, *f),
            mo@ == "multi_rebase_old"@,
            names@.len() == f0.nodes@.len(),
            forall|k: int| 0 <= k < names@.len() ==> !is_marker_branch((#[trigger] names@[k])@),
            i <= f0.nodes@.len(),
            forall|j: int| i <= j < f0.nodes@.len() ==> f.nodes@[j] == f0.nodes@[j],
            forall|j: int|
                0 <= j < i ==> rolled_back_node(f0.nodes@[j], #[trigger] f.nodes@[j], names@[j]@),
        decreases f0.nodes@.len() - i,
    {
        let ot_opt = f.nodes[i].repo.find_branch(&mo);
        if let Some(ot) = ot_opt {
            proof {
                f.nodes@[i as int].repo.lemma_branch_targets_bound();
            }
            settle_repo(&mut f.nodes[i].repo, &names[i], ot);
        }
        i = i + 1;
    }
    proof {
        assert forall|i: int| 0 <= i < f0.nodes@.len() implies backups_kept(
            (#[trigger] f0.nodes@[i]).repo,
            f.nodes@[i].repo,
        ) by {
            assert(rolled_back_node(f0.nodes@[i], f.nodes@[i], names@[i]@));
        }
    }
}

/// What the commit-signing slot answers: a commit written by the signer, or
/// the request to let the rebase engine create the commit itself.
pub enum SignOutcome {
    Signed(usize),
    UseDefault,
}

/// The commit-signing slot invoked before each rewritten commit.  Signing
/// is not wired in: the slot always asks for the default commit creation,
/// and never touches the repository.
pub fn sign_commit(
    author: &String,
    committer: &String,
    encoding: &Option<String>,
    message: &String,
    tree: &Vec<TreeEntry>,
    parents: &Vec<usize>,
) -> (r: SignOutcome)
    ensures
        r == SignOutcome::UseDefault,
{
    SignOutcome::UseDefault
}

/// What a returned commit map says on its own, independent of the rewritten
/// commit table: the fast-path identities, the anchor substitution, and the
/// exact coverage of the replayed range.
pub open spec fn commit_map_ok(r0: Repo, t: usize, m: Map<usize, usize>) -> bool {
    let hd = r0.spec_head_id();
    if hd == t {
        m == Map::<usize, usize>::empty().insert(t, t)
    } else {
        match merge_base_spec(r0.commits@, hd, t) {
            Some(b) => {
                &&& forall|c: usize|
                    #![trigger m.dom().contains(c)]
                    m.dom().contains(c) <==> c == b || range_upto(r0.commits@, hd, b).contains(c)
                &&& if b == t {
                    forall|c: usize| #[trigger] m.dom().contains(c) ==> m[c] == c
                } else {
                    m[b] == t
                }
            },
            None => false,
        }
    }
}

/// Runs the whole operation: records every node's HEAD name, rebases the
/// forest bottom-up, then finalizes on success or rolls back on failure.
///
/// Starting from a forest with no marker branches and every HEAD off the
/// marker names, success leaves no marker branch at any node; failure
/// cleans every touched node back to the pre-rebase head its rollback
/// marker held and leaves the rest untouched.  Backup branches are kept in
/// both cases.
pub fn multi_rebase(
    f: &mut Forest,
    target: usize,
    plans: &Vec<ReplayPlan>,
    hh: u8,
    mm: u8,
    ss: u8,
) -> (r: Result<CommitMap, DriverError>)
    requires
        forest_wf(*old(f)),
        target < old(f).nodes@[0].repo.commits@.len(),
        plans@.len() == old(f).nodes@.len(),
        hh < 24,
        mm < 60,
        ss < 60,
        forall|i: int|
            0 <= i < old(f).nodes@.len() ==> no_markers((#[trigger] old(f).nodes@[i]).repo),
        forall|i: int|
            0 <= i < old(f).nodes@.len() ==> !is_marker_branch(
                (#[trigger] old(f).nodes@[i]).repo.spec_head_name(),
            ),
    ensures
        same_shape(*old(f), *final(f)),
        forest_wf(*final(f)),
        forest_backups_kept(*old(f), *final(f)),
        forall|i: int|
            0 <= i < final(f).nodes@.len() ==> no_markers((#[trigger] final(f).nodes@[i]).repo),
        old(f).nodes@.len() == 1 ==> (r is Ok <==> leaf_rebase_succeeds(
            old(f).nodes@[0].repo,
            target,
            plans@[0],
        )),
        match r {
            Ok(m) => {
                &&& m.inv()
                &&& commit_map_ok(old(f).nodes@[0].repo, target, m@)
            },
            Err(_) => true,
        },
{
    let ghost f0 = *f;
    proof {
        if f0.nodes@.len() == 1 && f0.nodes@[0].children@.len() > 0 {
            assert(0 < f0.nodes@[0].children@[0] < 1);
        }
    }
    let names = collect_head_names(f);
    proof {
        assert(forall|i: int|
            0 <= i < names@.len() ==> !is_marker_branch((#[trigger] names@[i])@));
    }
    let res = rebase_forest(f, 0, target, plans, hh, mm, ss);
    let ghost f1 = *f;
    match res {
        Ok(p) => {
            finalize_forest(f, &names);
            proof {
                lemma_no_markers_after_success(f0, f1, *f, names@);
                lemma_forest_backups_trans(f0, f1, *f);
                assert forall|i: int| 0 <= i < f0.nodes@.len() implies backups_kept(
                    (#[trigger] f0.nodes@[i]).repo,
                    f.nodes@[i].repo,
                ) by {
                    assert(finalized_node(f1.nodes@[i], f.nodes@[i], names@[i]@));
                    if f1.nodes@[i].repo.branches_map().dom().contains("multi_rebase_new"@) {
                        lemma_backups_trans(f0.nodes@[i].repo, f1.nodes@[i].repo, f.nodes@[i].repo);
                    } else {
                        lemma_backups_trans(f0.nodes@[i].repo, f1.nodes@[i].repo, f.nodes@[i].repo);
                    }
                }
                assert(commit_map_ok(f0.nodes@[0].repo, target, p.0@));
            }
            Ok(p.0)
        },
        Err(e) => {
            rollback_forest(f, &names);
            proof {
                lemma_rollback_restores(f0, f1, *f, names@);
                assert forall|i: int| 0 <= i < f0.nodes@.len() implies backups_kept(
                    (#[trigger] f0.nodes@[i]).repo,
                    f.nodes@[i].repo,
                ) by {
                    assert(rolled_back_node(f1.nodes@[i], f.nodes@[i], names@[i]@));
                    lemma_backups_trans(f0.nodes@[i].repo, f1.nodes@[i].repo, f.nodes@[i].repo);
                }
            }
            Err(e)
        },
    }
}

/// After a rebase that started with no markers anywhere succeeds and
/// finalization runs, no marker branch exists at any node.
pub proof fn lemma_no_markers_after_success(f0: Forest, f1: Forest, f2: Forest, names: Seq<String>)
    requires
        f0.nodes.len() == f1.nodes.len() == f2.nodes.len(),
        forall|i: int| 0 <= i < f0.nodes@.len() ==> no_markers((#[trigger] f0.nodes@[i]).repo),
        nodes_clean_or_all_markers(f0, f1),
        names.len() == f1.nodes@.len(),
        forall|i: int|
            0 <= i < f1.nodes@.len() ==> finalized_node(
                f1.nodes@[i],
                #[trigger] f2.nodes@[i],
                names[i]@,
            ),
    ensures
        forall|i: int| 0 <= i < f2.nodes@.len() ==> no_markers((#[trigger] f2.nodes@[i]).repo),
{
    assert forall|i: int| 0 <= i < f2.nodes@.len() implies no_markers(
        (#[trigger] f2.nodes@[i]).repo,
    ) by {
        assert(no_markers(f0.nodes@[i].repo));
        if f1.nodes@[i].repo.branches_map() == f0.nodes@[i].repo.branches_map() {
            assert(!f1.nodes@[i].repo.branches_map().dom().contains("multi_rebase_new"@));
            assert(f2.nodes@[i] == f1.nodes@[i]);
        } else {
            assert(all_markers(f1.nodes@[i].repo));
        }
    }
}

/// After a rebase that started with no markers anywhere fails and rollback
/// runs, no marker branch exists at any node, and every node the driver had
/// touched sits at the pre-rebase head its rollback marker held.
pub proof fn lemma_rollback_restores(f0: Forest, f1: Forest, f2: Forest, names: Seq<String>)
    requires
        f0.nodes.len() == f1.nodes.len() == f2.nodes.len(),
        forall|i: int| 0 <= i < f0.nodes@.len() ==> no_markers((#[trigger] f0.nodes@[i]).repo),
        nodes_clean_or_marked(f0, f1),
        names.len() == f1.nodes@.len(),
        forall|i: int|
            0 <= i < f1.nodes@.len() ==> rolled_back_node(
                f1.nodes@[i],
                #[trigger] f2.nodes@[i],
                names[i]@,
            ),
    ensures
        forall|i: int| 0 <= i < f2.nodes@.len() ==> no_markers((#[trigger] f2.nodes@[i]).repo),
        forall|i: int|
            0 <= i < f2.nodes@.len() ==> (#[trigger] f2.nodes@[i]) == f1.nodes@[i]
                || f2.nodes@[i].repo.workdir == f1.nodes@[i].repo.branches_map()[
                "multi_rebase_old"@],
{
    assert forall|i: int| 0 <= i < f2.nodes@.len() implies no_markers(
        (#[trigger] f2.nodes@[i]).repo,
    ) by {
        assert(no_markers(f0.nodes@[i].repo));
        if f1.nodes@[i].repo.branches_map() == f0.nodes@[i].repo.branches_map() {
            assert(!f1.nodes@[i].repo.branches_map().dom().contains("multi_rebase_old"@));
            assert(f2.nodes@[i] == f1.nodes@[i]);
        }
    }
    assert forall|i: int| 0 <= i < f2.nodes@.len() implies (#[trigger] f2.nodes@[i])
        == f1.nodes@[i] || f2.nodes@[i].repo.workdir == f1.nodes@[i].repo.branches_map()[
        "multi_rebase_old"@] by {
        assert(rolled_back_node(f1.nodes@[i], f2.nodes@[i], names[i]@));
    }
}

} // verus!

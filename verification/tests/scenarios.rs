// End-to-end scenarios on the repository model: fast paths, a single-repo
// rebase, submodule substitution, a submodule first pinned inside the
// range, conflict resolution, and rollback after a store failure.

use multi_rebase::commit_map::CommitMap;
use multi_rebase::driver::{
    multi_rebase, rebase_forest, DriverError, Forest, RepoNode, ReplayPlan, StepOutcome,
};
use multi_rebase::pinning::forest_has_markers;
use multi_rebase::repo::{Branch, CommitData, HeadState, Repo};
use multi_rebase::tree::{EntryKind, TreeEntry};

fn blob(path: &str, id: usize) -> TreeEntry {
    TreeEntry { path: path.to_string(), kind: EntryKind::Blob, id }
}

fn pin(path: &str, id: usize) -> TreeEntry {
    TreeEntry { path: path.to_string(), kind: EntryKind::Commit, id }
}

fn commit(parent: Option<usize>, tree: Vec<TreeEntry>) -> CommitData {
    CommitData { parent, tree }
}

fn branch(name: &str, target: usize) -> Branch {
    Branch { name: name.to_string(), target }
}

fn node(name: &str, path: &str, children: Vec<usize>, repo: Repo) -> RepoNode {
    RepoNode { name: name.to_string(), path: path.to_string(), children, repo }
}

fn empty_plans(n: usize) -> Vec<ReplayPlan> {
    let mut v = Vec::new();
    for _ in 0..n {
        v.push(ReplayPlan { overrides: Vec::new() })
    }
    v
}

fn has_backup(repo: &Repo) -> bool {
    repo.branches.iter().any(|b| b.name.starts_with("backup/"))
}

fn map_get(m: &CommitMap, k: usize) -> Option<usize> {
    m.get(k)
}

#[test]
fn noop_root() {
    // Root HEAD equals the target: the map is {target -> target} and no
    // marker leaks.
    let repo = Repo {
        commits: vec![commit(None, vec![blob("a.txt", 7)])],
        branches: vec![branch("main", 0)],
        head: HeadState::OnBranch("main".to_string()),
        workdir: 0,
    };
    let mut f = Forest { nodes: vec![node("", "", vec![], repo)] };
    let plans = empty_plans(1);
    let r = multi_rebase(&mut f, 0, &plans, 1, 2, 3);
    let m = r.expect("noop rebase succeeds");
    assert_eq!(m.len(), 1);
    assert_eq!(map_get(&m, 0), Some(0));
    assert!(!forest_has_markers(&f));
    match &f.nodes[0].repo.head {
        HeadState::OnBranch(n) => assert_eq!(n, "main"),
        _ => panic!("head should stay on its branch"),
    }
}

#[test]
fn trivial_ancestor() {
    // HEAD strictly descends from the target: every commit of the range
    // maps to itself and the head does not move.
    let repo = Repo {
        commits: vec![
            commit(None, vec![]),
            commit(Some(0), vec![]),
            commit(Some(1), vec![]),
        ],
        branches: vec![branch("main", 2)],
        head: HeadState::OnBranch("main".to_string()),
        workdir: 2,
    };
    let mut f = Forest { nodes: vec![node("", "", vec![], repo)] };
    let plans = empty_plans(1);
    let m = multi_rebase(&mut f, 0, &plans, 0, 0, 0).expect("ancestor fast path succeeds");
    assert_eq!(m.len(), 3);
    assert_eq!(map_get(&m, 0), Some(0));
    assert_eq!(map_get(&m, 1), Some(1));
    assert_eq!(map_get(&m, 2), Some(2));
    assert!(!forest_has_markers(&f));
    assert_eq!(f.nodes[0].repo.workdir, 2);
}

#[test]
fn single_repo_rebase() {
    // feature holds X and Y; the target Z sits on another line.  The
    // rewritten commits chain X' onto Z and Y' onto X', feature tips at
    // Y', and the backup branch still points at Y.
    let repo = Repo {
        commits: vec![
            commit(None, vec![blob("f", 1)]),
            commit(Some(0), vec![blob("f", 2)]),     // X
            commit(Some(1), vec![blob("f", 3)]),     // Y
            commit(Some(0), vec![blob("f", 4)]),     // Z
        ],
        branches: vec![branch("feature", 2)],
        head: HeadState::OnBranch("feature".to_string()),
        workdir: 2,
    };
    let mut f = Forest { nodes: vec![node("", "", vec![], repo)] };
    let plans = empty_plans(1);
    let m = multi_rebase(&mut f, 3, &plans, 1, 2, 3).expect("rebase succeeds");
    assert_eq!(m.len(), 3);
    assert_eq!(map_get(&m, 0), Some(3)); // anchor: base -> Z
    let x2 = map_get(&m, 1).unwrap();
    let y2 = map_get(&m, 2).unwrap();
    assert_eq!(f.nodes[0].repo.commits[x2].parent, Some(3));
    assert_eq!(f.nodes[0].repo.commits[y2].parent, Some(x2));
    // feature now tips at Y'.
    let feature = f.nodes[0]
        .repo
        .branches
        .iter()
        .rev()
        .find(|b| b.name == "feature")
        .expect("feature exists");
    assert_eq!(feature.target, y2);
    // The backup taken at entry still points at Y, and survives.
    let backup = f.nodes[0]
        .repo
        .branches
        .iter()
        .find(|b| b.name == "backup/feature_01-02-03")
        .expect("backup exists");
    assert_eq!(backup.target, 2);
    assert!(!forest_has_markers(&f));
    // The rewritten trees carry the original blobs: no submodule pins to
    // substitute.
    assert_eq!(f.nodes[0].repo.commits[x2].tree[0].id, 2);
    assert_eq!(f.nodes[0].repo.commits[y2].tree[0].id, 3);
}

#[test]
fn one_submodule_one_commit() {
    // Root commit U bumps submodule s from s0 to s1; the target V keeps s
    // at s0.  The child fast path maps s1 to itself, and U's rewrite still
    // pins s at s1.
    let child = Repo {
        commits: vec![commit(None, vec![blob("c", 1)]), commit(Some(0), vec![blob("c", 2)])],
        branches: vec![branch("main", 1)],
        head: HeadState::OnBranch("main".to_string()),
        workdir: 1,
    };
    let root = Repo {
        commits: vec![
            commit(None, vec![pin("s", 0)]),             // base
            commit(Some(0), vec![pin("s", 1)]),          // U
            commit(Some(0), vec![pin("s", 0), blob("v", 9)]), // V
        ],
        branches: vec![branch("master", 1)],
        head: HeadState::OnBranch("master".to_string()),
        workdir: 1,
    };
    let mut f = Forest {
        nodes: vec![node("", "", vec![1], root), node("s", "s", vec![], child)],
    };
    let plans = empty_plans(2);
    let m = multi_rebase(&mut f, 2, &plans, 0, 0, 0).expect("rebase succeeds");
    assert_eq!(map_get(&m, 0), Some(2));
    let u2 = map_get(&m, 1).unwrap();
    assert_eq!(f.nodes[0].repo.commits[u2].parent, Some(2));
    assert_eq!(f.nodes[0].repo.commits[u2].tree[0].id, 1);
    assert!(!forest_has_markers(&f));
}

#[test]
fn submodule_pin_substituted() {
    // The child itself needs a real replay: its commit s1 is rewritten as
    // s1', and the parent's rewritten commit pins the child at s1'.
    let child = Repo {
        commits: vec![
            commit(None, vec![blob("c", 1)]),
            commit(Some(0), vec![blob("c", 2)]),     // sX: the child target line
            commit(Some(0), vec![blob("c", 3)]),     // s1: the child's head
        ],
        branches: vec![branch("cmain", 2)],
        head: HeadState::OnBranch("cmain".to_string()),
        workdir: 2,
    };
    let root = Repo {
        commits: vec![
            commit(None, vec![pin("s", 0)]),             // base
            commit(Some(0), vec![pin("s", 2)]),          // U pins s at s1
            commit(Some(0), vec![pin("s", 1)]),          // target pins s at sX
        ],
        branches: vec![branch("master", 1)],
        head: HeadState::OnBranch("master".to_string()),
        workdir: 1,
    };
    let mut f = Forest {
        nodes: vec![node("", "", vec![1], root), node("s", "s", vec![], child)],
    };
    let plans = empty_plans(2);
    let m = multi_rebase(&mut f, 2, &plans, 0, 0, 0).expect("rebase succeeds");
    let u2 = map_get(&m, 1).unwrap();
    // The child rewrote s1 (id 2) as a new commit on top of sX (id 1).
    let s1p = f.nodes[0].repo.commits[u2].tree[0].id;
    assert_eq!(f.nodes[1].repo.commits[s1p].parent, Some(1));
    assert_ne!(s1p, 2);
    assert!(!forest_has_markers(&f));
}

#[test]
fn newly_added_inner_submodule() {
    // A submodule t is pinned inside the range but not in the target tree:
    // the driver rebases it on the fly and installs its map.
    let child = Repo {
        commits: vec![commit(None, vec![blob("t", 1)]), commit(Some(0), vec![blob("t", 2)])],
        branches: vec![branch("tmain", 1)],
        head: HeadState::OnBranch("tmain".to_string()),
        workdir: 1,
    };
    let root = Repo {
        commits: vec![
            commit(None, vec![]),                        // base
            commit(Some(0), vec![pin("t", 1)]),          // W introduces t
            commit(Some(0), vec![blob("z", 5)]),         // target without t
        ],
        branches: vec![branch("main", 1)],
        head: HeadState::OnBranch("main".to_string()),
        workdir: 1,
    };
    let mut f = Forest {
        nodes: vec![node("", "", vec![1], root), node("t", "t", vec![], child)],
    };
    let plans = empty_plans(2);
    let r = rebase_forest(&mut f, 0, 2, &plans, 0, 0, 0).expect("rebase succeeds");
    let (m, ext) = r;
    let w2 = m.get(1).unwrap();
    // The installed child map covers the pinned commit, and the rewrite
    // still pins t (here at itself: the child rebase was a no-op).
    assert!(ext.iter().any(|p| p.0 == "t"));
    assert_eq!(f.nodes[0].repo.commits[w2].tree[0].path, "t");
    assert_eq!(f.nodes[0].repo.commits[w2].tree[0].id, 1);
}

#[test]
fn conflict_resolved_tree_wins() {
    // A replay step conflicts; after the user resolves it, the rewritten
    // commit carries the resolved tree and the map records the rewrite.
    let repo = Repo {
        commits: vec![
            commit(None, vec![blob("f", 1)]),
            commit(Some(0), vec![blob("f", 2)]),     // X conflicts
            commit(Some(0), vec![blob("f", 4)]),     // target Z
        ],
        branches: vec![branch("feature", 1)],
        head: HeadState::OnBranch("feature".to_string()),
        workdir: 1,
    };
    let mut f = Forest { nodes: vec![node("", "", vec![], repo)] };
    let plans = vec![ReplayPlan {
        overrides: vec![(1, StepOutcome::ConflictResolved(vec![blob("f", 8)]))],
    }];
    let m = multi_rebase(&mut f, 2, &plans, 0, 0, 0).expect("rebase succeeds");
    let x2 = map_get(&m, 1).unwrap();
    assert_eq!(f.nodes[0].repo.commits[x2].parent, Some(2));
    assert_eq!(f.nodes[0].repo.commits[x2].tree[0].id, 8);
}

#[test]
fn already_applied_records_current_head() {
    // An empty patch is skipped: the original maps to the commit standing
    // for its parent, and nothing new is written for it.
    let repo = Repo {
        commits: vec![
            commit(None, vec![blob("f", 1)]),
            commit(Some(0), vec![blob("f", 2)]),     // X already applied
            commit(Some(1), vec![blob("f", 3)]),     // Y
            commit(Some(0), vec![blob("f", 4)]),     // target Z
        ],
        branches: vec![branch("feature", 2)],
        head: HeadState::OnBranch("feature".to_string()),
        workdir: 2,
    };
    let mut f = Forest { nodes: vec![node("", "", vec![], repo)] };
    let plans = vec![ReplayPlan { overrides: vec![(1, StepOutcome::AlreadyApplied)] }];
    let m = multi_rebase(&mut f, 3, &plans, 0, 0, 0).expect("rebase succeeds");
    assert_eq!(map_get(&m, 1), Some(3)); // X stands for the new base itself
    let y2 = map_get(&m, 2).unwrap();
    assert_eq!(f.nodes[0].repo.commits[y2].parent, Some(3));
}

#[test]
fn rollback_after_store_failure() {
    // A store error in the child's replay aborts the whole run: markers
    // are cleaned everywhere, the child head is back at its pre-rebase
    // commit, and the backup branch survives.
    let child = Repo {
        commits: vec![
            commit(None, vec![blob("c", 1)]),
            commit(Some(0), vec![blob("c", 2)]),     // child target line
            commit(Some(0), vec![blob("c", 3)]),     // child head; replay fails here
        ],
        branches: vec![branch("cmain", 2)],
        head: HeadState::OnBranch("cmain".to_string()),
        workdir: 2,
    };
    let root = Repo {
        commits: vec![
            commit(None, vec![pin("s", 0)]),
            commit(Some(0), vec![pin("s", 2)]),
            commit(Some(0), vec![pin("s", 1)]),
        ],
        branches: vec![branch("master", 1)],
        head: HeadState::OnBranch("master".to_string()),
        workdir: 1,
    };
    let mut f = Forest {
        nodes: vec![node("", "", vec![1], root), node("s", "s", vec![], child)],
    };
    let plans = vec![
        ReplayPlan { overrides: Vec::new() },
        ReplayPlan { overrides: vec![(2, StepOutcome::StoreFail)] },
    ];
    let r = multi_rebase(&mut f, 2, &plans, 0, 0, 0);
    assert_eq!(r.err(), Some(DriverError::Store));
    assert!(!forest_has_markers(&f));
    // The child is reset to its pre-rebase head; its branch points there.
    assert_eq!(f.nodes[1].repo.workdir, 2);
    let cmain = f.nodes[1]
        .repo
        .branches
        .iter()
        .rev()
        .find(|b| b.name == "cmain")
        .expect("cmain exists");
    assert_eq!(cmain.target, 2);
    // The root never started its own replay: its branches are untouched
    // except for nothing at all.
    assert_eq!(f.nodes[0].repo.workdir, 1);
    // Backups taken in the child are never deleted.
    assert!(has_backup(&f.nodes[1].repo));
}

#[test]
fn disjoint_histories_roll_back() {
    // Two root commits with no common ancestor: the driver reports it and
    // rollback restores the head.
    let repo = Repo {
        commits: vec![commit(None, vec![]), commit(None, vec![])],
        branches: vec![branch("main", 0)],
        head: HeadState::OnBranch("main".to_string()),
        workdir: 0,
    };
    let mut f = Forest { nodes: vec![node("", "", vec![], repo)] };
    let plans = empty_plans(1);
    let r = multi_rebase(&mut f, 1, &plans, 0, 0, 0);
    assert_eq!(r.err(), Some(DriverError::NoCommonHistory));
    assert!(!forest_has_markers(&f));
    assert_eq!(f.nodes[0].repo.workdir, 0);
}

#[test]
fn store_failure_in_root_range() {
    // A store failure recorded for a commit of the root's own range makes
    // the run fail; one recorded for a commit outside the range does not.
    let make = || Repo {
        commits: vec![
            commit(None, vec![]),
            commit(Some(0), vec![blob("f", 2)]),
            commit(Some(0), vec![blob("f", 4)]),
        ],
        branches: vec![branch("feature", 1)],
        head: HeadState::OnBranch("feature".to_string()),
        workdir: 1,
    };
    let mut f = Forest { nodes: vec![node("", "", vec![], make())] };
    let plans = vec![ReplayPlan { overrides: vec![(1, StepOutcome::StoreFail)] }];
    assert_eq!(multi_rebase(&mut f, 2, &plans, 0, 0, 0).err(), Some(DriverError::Store));
    assert!(!forest_has_markers(&f));

    let mut f = Forest { nodes: vec![node("", "", vec![], make())] };
    let plans = vec![ReplayPlan { overrides: vec![(0, StepOutcome::StoreFail)] }];
    assert!(multi_rebase(&mut f, 2, &plans, 0, 0, 0).is_ok());
}

#[test]
fn leftover_marker_cleanup() {
    // A marker left by a failed earlier run is detected and removed;
    // backups and ordinary branches stay.
    let repo = Repo {
        commits: vec![commit(None, vec![])],
        branches: vec![
            branch("main", 0),
            branch("multi_rebase_old", 0),
            branch("backup/main_01-02-03", 0),
        ],
        head: HeadState::OnBranch("main".to_string()),
        workdir: 0,
    };
    let mut f = Forest { nodes: vec![node("", "", vec![], repo)] };
    assert!(forest_has_markers(&f));
    multi_rebase::pinning::clean_markers(&mut f);
    assert!(!forest_has_markers(&f));
    assert!(f.nodes[0].repo.branches.iter().any(|b| b.name == "main"));
    assert!(has_backup(&f.nodes[0].repo));
}

#[test]
fn missing_child_pin_is_fatal() {
    // A tree pins a submodule at a commit the child does not hold.
    let child = Repo {
        commits: vec![commit(None, vec![])],
        branches: vec![branch("main", 0)],
        head: HeadState::OnBranch("main".to_string()),
        workdir: 0,
    };
    let root = Repo {
        commits: vec![commit(None, vec![pin("s", 9)])],
        branches: vec![branch("main", 0)],
        head: HeadState::OnBranch("main".to_string()),
        workdir: 0,
    };
    let mut f = Forest {
        nodes: vec![node("", "", vec![1], root), node("s", "s", vec![], child)],
    };
    let plans = empty_plans(2);
    let r = rebase_forest(&mut f, 0, 0, &plans, 0, 0, 0);
    assert!(matches!(r, Err(DriverError::InvalidPin)));
}

// Unit tests for the name handling, the commit map, the tree lookup, the
// ancestry computations, and the pre-flight decisions.

use multi_rebase::commit_map::CommitMap;
use multi_rebase::clock::local_time_hms;
use multi_rebase::driver::{sign_commit, SignOutcome};
use multi_rebase::names::{
    backup_branch_name, branch_short_name, contains_substr, ends_with_str,
    is_excluded_branch_name, is_unpinned_head_name, remote_branch_to_local, starts_with_str,
    str_eq, sub_path_to_string,
};
use multi_rebase::pinning::{
    choose_candidates, confirm_single, menu_selection, needs_checkout, BranchInfo,
};
use multi_rebase::repo::{contains_id, Branch, CommitData, HeadState, Repo};
use multi_rebase::tree::{submodule_at_tree, EntryKind, TreeEntry};

fn info(name: &str, remote: bool, upstream: Option<&str>, at_head: bool) -> BranchInfo {
    BranchInfo {
        name: name.to_string(),
        remote,
        upstream: upstream.map(|u| u.to_string()),
        at_head,
    }
}

#[test]
fn path_display() {
    assert_eq!(sub_path_to_string(&vec![]), "*root*");
    assert_eq!(sub_path_to_string(&vec!["a".to_string()]), "a");
    assert_eq!(
        sub_path_to_string(&vec!["a".to_string(), "b".to_string(), "c".to_string()]),
        "a/b/c"
    );
}

#[test]
fn substring_search() {
    assert!(contains_substr("refs/heads/multi_rebase_new", "multi_rebase_"));
    assert!(!contains_substr("refs/heads/feature", "multi_rebase_"));
    assert!(contains_substr("abc", ""));
    assert!(!contains_substr("ab", "abc"));
    assert!(starts_with_str("backup/feature", "backup/"));
    assert!(!starts_with_str("feature", "backup/"));
    assert!(ends_with_str("origin/HEAD", "HEAD"));
    assert!(!ends_with_str("origin/head", "HEAD"));
    assert!(str_eq("same", "same"));
    assert!(!str_eq("same", "samey"));
}

#[test]
fn short_and_canonical_names() {
    assert_eq!(branch_short_name("refs/heads/feature"), "feature");
    assert_eq!(branch_short_name("feature"), "feature");
    assert_eq!(branch_short_name("a/b/c"), "c");
    assert_eq!(remote_branch_to_local("origin/fix"), Some("fix".to_string()));
    assert_eq!(remote_branch_to_local("origin/nested/fix"), Some("nested/fix".to_string()));
    assert_eq!(remote_branch_to_local("plain"), None);
}

#[test]
fn head_and_exclusion_classification() {
    assert!(is_unpinned_head_name("HEAD"));
    assert!(is_unpinned_head_name("refs/heads/multi_rebase_new"));
    assert!(!is_unpinned_head_name("refs/heads/main"));
    assert!(is_excluded_branch_name("backup/feature_01-02-03"));
    assert!(is_excluded_branch_name("origin/HEAD"));
    assert!(is_excluded_branch_name("multi_rebase_old"));
    assert!(!is_excluded_branch_name("feature"));
}

#[test]
fn backup_name_format() {
    assert_eq!(backup_branch_name("feature", 1, 2, 3), "backup/feature_01-02-03");
    assert_eq!(backup_branch_name("HEAD", 23, 59, 59), "backup/HEAD_23-59-59");
    assert_eq!(backup_branch_name("x", 0, 0, 0), "backup/x_00-00-00");
    assert_eq!(backup_branch_name("x", 12, 30, 5), "backup/x_12-30-05");
}

#[test]
fn commit_map_behaves_like_a_map() {
    let mut m = CommitMap::new();
    assert_eq!(m.len(), 0);
    assert_eq!(m.get(3), None);
    m.insert(3, 30);
    m.insert(4, 40);
    m.insert(3, 31);
    assert_eq!(m.len(), 2);
    assert_eq!(m.get(3), Some(31));
    assert_eq!(m.get(4), Some(40));
    assert!(m.contains_key(4));
    assert!(!m.contains_key(5));
    let s = CommitMap::singleton(7, 8);
    assert_eq!(s.len(), 1);
    assert_eq!(s.get(7), Some(8));
}

#[test]
fn gitlink_lookup() {
    let tree = vec![
        TreeEntry { path: "a".to_string(), kind: EntryKind::Blob, id: 1 },
        TreeEntry { path: "sub".to_string(), kind: EntryKind::Commit, id: 42 },
        TreeEntry { path: "sub2".to_string(), kind: EntryKind::Tree, id: 5 },
    ];
    assert_eq!(submodule_at_tree(&tree, &"sub".to_string()), Some(42));
    assert_eq!(submodule_at_tree(&tree, &"a".to_string()), None);
    assert_eq!(submodule_at_tree(&tree, &"missing".to_string()), None);
}

#[test]
fn chains_and_merge_base() {
    let repo = Repo {
        commits: vec![
            CommitData { parent: None, tree: vec![] },
            CommitData { parent: Some(0), tree: vec![] },
            CommitData { parent: Some(1), tree: vec![] },
            CommitData { parent: Some(0), tree: vec![] },
        ],
        branches: vec![],
        head: HeadState::Detached(2),
        workdir: 0,
    };
    let ch = repo.collect_chain(2);
    assert_eq!(ch, vec![2, 1, 0]);
    assert!(contains_id(&ch, 1));
    assert!(!contains_id(&ch, 3));
    assert_eq!(repo.merge_base(2, 3), Some(0));
    assert_eq!(repo.merge_base(2, 1), Some(1));
    assert_eq!(repo.merge_base(2, 2), Some(2));
}

#[test]
fn branch_table_operations() {
    let mut repo = Repo {
        commits: vec![CommitData { parent: None, tree: vec![] }],
        branches: vec![Branch { name: "main".to_string(), target: 0 }],
        head: HeadState::OnBranch("main".to_string()),
        workdir: 0,
    };
    assert_eq!(repo.find_branch(&"main".to_string()), Some(0));
    repo.upsert_branch(&"other".to_string(), 0);
    assert!(repo.has_branch(&"other".to_string()));
    repo.delete_branch(&"other".to_string());
    assert!(!repo.has_branch(&"other".to_string()));
    assert_eq!(repo.head_name(), "main");
    assert_eq!(repo.head_commit(), 0);
}

#[test]
fn checkout_detection() {
    assert!(needs_checkout(&"HEAD".to_string(), &vec![]));
    assert!(!needs_checkout(&"refs/heads/main".to_string(), &vec![false, false]));
    assert!(needs_checkout(&"refs/heads/main".to_string(), &vec![false, true]));
}

#[test]
fn candidate_tiers_in_precedence_order() {
    // A remote branch at HEAD with a tracking local wins the first tier.
    let bs = vec![
        info("origin/fix", true, None, true),
        info("fix", false, Some("origin/fix"), false),
        info("other", false, None, true),
    ];
    let (cands, warn) = choose_candidates(&bs).expect("candidates exist");
    assert!(!warn);
    assert_eq!(cands.len(), 1);
    assert_eq!(cands[0].0, "fix");
    assert_eq!(cands[0].1, "origin/fix");

    // Without the tracking pair, a local branch at HEAD is offered.
    let bs = vec![info("other", false, None, true), info("stale", false, None, false)];
    let (cands, warn) = choose_candidates(&bs).expect("candidates exist");
    assert!(!warn);
    assert_eq!(cands.len(), 1);
    assert_eq!(cands[0].0, "other");

    // A remote branch at HEAD is canonicalized.
    let bs = vec![info("origin/fix", true, None, true)];
    let (cands, warn) = choose_candidates(&bs).expect("candidates exist");
    assert!(!warn);
    assert_eq!(cands[0].0, "fix");
    assert_eq!(cands[0].1, "origin/fix");

    // Any local branch comes with the hard-reset warning.
    let bs = vec![info("stale", false, None, false)];
    let (cands, warn) = choose_candidates(&bs).expect("candidates exist");
    assert!(warn);
    assert_eq!(cands[0].0, "stale");

    // Excluded names never appear; with nothing else the node fails.
    let bs = vec![
        info("backup/x", false, None, true),
        info("multi_rebase_old", false, None, true),
        info("origin/HEAD", true, None, true),
    ];
    assert!(choose_candidates(&bs).is_none());
}

#[test]
fn prompt_interpretation() {
    assert!(confirm_single("y"));
    assert!(confirm_single(""));
    assert!(confirm_single("Yes"));
    assert!(!confirm_single("n"));
    assert!(!confirm_single("No"));
    assert_eq!(menu_selection("1", 3), Some(0));
    assert_eq!(menu_selection("3", 3), Some(2));
    assert_eq!(menu_selection("0", 3), None);
    assert_eq!(menu_selection("4", 3), None);
    assert_eq!(menu_selection("", 3), None);
    assert_eq!(menu_selection("two", 3), None);
    assert_eq!(menu_selection("99999999999999999999", 3), None);
}

#[test]
fn signing_slot_passes_through() {
    let r = sign_commit(
        &"author".to_string(),
        &"committer".to_string(),
        &None,
        &"message".to_string(),
        &vec![],
        &vec![0],
    );
    assert!(matches!(r, SignOutcome::UseDefault));
}

#[test]
fn clock_is_in_range() {
    let (h, m, s) = local_time_hms();
    assert!(h < 24);
    assert!(m < 60);
    assert!(s < 60);
}

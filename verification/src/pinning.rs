//! Pre-flight pinning: detecting repositories without a usable named
//! branch, ranking checkout candidates, interpreting the user's answers,
//! and cleaning leftover marker branches of a failed earlier run.

use vstd::prelude::*;
use crate::driver::{marker_cur, marker_new, marker_old, marker_track, no_markers, Forest};
use crate::names::{spec_excluded_branch, spec_unpinned_head, strip_remote};

verus! {

/// A branch as pre-flight sees it: its short name, its scope, the upstream
/// it tracks (for local branches), and whether it peels to the current HEAD
/// commit.
pub struct BranchInfo {
    pub name: String,
    pub remote: bool,
    pub upstream: Option<String>,
    pub at_head: bool,
}

/// Whether a repository needs a branch checked out before the rebase: its
/// HEAD is detached or sits on a marker branch, or any of its children
/// needs one.
pub fn needs_checkout(head_name: &String, child_flags: &Vec<bool>) -> (r: bool)
    ensures
        r == (spec_unpinned_head(head_name@) || exists|i: int|
            0 <= i < child_flags@.len() && child_flags@[i]),
{
    if crate::names::is_unpinned_head_name(head_name.as_str()) {
        return true;
    }
    let mut i: usize = 0;
    while i < child_flags.len()
        invariant
            i <= child_flags@.len(),
            forall|j: int| 0 <= j < i ==> !child_flags@[j],
        decreases child_flags@.len() - i,
    {
        if child_flags[i] {
            return true;
        }
        i = i + 1;
    }
    false
}

/// The candidate pairs as (local-name, source-name) views.
pub open spec fn pairs_view(s: Seq<(String, String)>) -> Seq<(Seq<char>, Seq<char>)> {
    s.map_values(|p: (String, String)| (p.0@, p.1@))
}

/// The local branches whose upstream is the remote branch `rn`, paired with
/// `rn`, in branch order.
pub open spec fn locals_tracking(bs: Seq<BranchInfo>, rn: Seq<char>) -> Seq<(Seq<char>, Seq<char>)>
    decreases bs.len(),
{
    if bs.len() == 0 {
        Seq::empty()
    } else {
        locals_tracking(bs.drop_last(), rn) + (if !bs.last().remote && match bs.last().upstream {
            Some(u) => u@ == rn,
            None => false,
        } {
            seq![(bs.last().name@, rn)]
        } else {
            Seq::empty()
        })
    }
}

/// The tracked-at-HEAD tier: for each remote branch at HEAD that is not
/// excluded, the local branches tracking it.
pub open spec fn tier_tracked(bs: Seq<BranchInfo>, all: Seq<BranchInfo>) -> Seq<
    (Seq<char>, Seq<char>),
>
    decreases bs.len(),
{
    if bs.len() == 0 {
        Seq::empty()
    } else {
        tier_tracked(bs.drop_last(), all) + (if bs.last().remote && bs.last().at_head
            && !spec_excluded_branch(bs.last().name@) {
            locals_tracking(all, bs.last().name@)
        } else {
            Seq::empty()
        })
    }
}

/// The local-at-HEAD tier: local branches peeling to HEAD, not excluded.
pub open spec fn tier_local(bs: Seq<BranchInfo>) -> Seq<(Seq<char>, Seq<char>)>
    decreases bs.len(),
{
    if bs.len() == 0 {
        Seq::empty()
    } else {
        tier_local(bs.drop_last()) + (if !bs.last().remote && bs.last().at_head
            && !spec_excluded_branch(bs.last().name@) {
            seq![(bs.last().name@, bs.last().name@)]
        } else {
            Seq::empty()
        })
    }
}

/// The remote-at-HEAD tier: remote branches peeling to HEAD, not excluded,
/// canonicalized by stripping the remote prefix; one whose name holds no
/// prefix is not offered.
pub open spec fn tier_remote(bs: Seq<BranchInfo>) -> Seq<(Seq<char>, Seq<char>)>
    decreases bs.len(),
{
    if bs.len() == 0 {
        Seq::empty()
    } else {
        tier_remote(bs.drop_last()) + (if bs.last().remote && bs.last().at_head
            && !spec_excluded_branch(bs.last().name@) {
            match strip_remote(bs.last().name@) {
                Some(c) => seq![(c, bs.last().name@)],
                None => Seq::empty(),
            }
        } else {
            Seq::empty()
        })
    }
}

/// The any-local tier: every local branch that is not excluded, whatever
/// its tip.
pub open spec fn tier_any_local(bs: Seq<BranchInfo>) -> Seq<(Seq<char>, Seq<char>)>
    decreases bs.len(),
{
    if bs.len() == 0 {
        Seq::empty()
    } else {
        tier_any_local(bs.drop_last()) + (if !bs.last().remote && !spec_excluded_branch(
            bs.last().name@,
        ) {
            seq![(bs.last().name@, bs.last().name@)]
        } else {
            Seq::empty()
        })
    }
}

fn locals_tracking_exec(branches: &Vec<BranchInfo>, rn: &String) -> (r: Vec<(String, String)>)
    ensures
        pairs_view(r@) == locals_tracking(branches@, rn@),
{
    let mut out: Vec<(String, String)> = Vec::new();
    let mut j: usize = 0;
    while j < branches.len()
        invariant
            j <= branches@.len(),
            pairs_view(out@) == locals_tracking(branches@.take(j as int), rn@),
        decreases branches@.len() - j,
    {
        proof {
            assert(branches@.take(j + 1).drop_last() =~= branches@.take(j as int));
            assert(branches@.take(j + 1).last() == branches@[j as int]);
        }
        let b = &branches[j];
        let tracks = if b.remote {
            false
        } else {
            match &b.upstream {
                Some(u) => crate::names::str_eq(u.as_str(), rn.as_str()),
                None => false,
            }
        };
        if tracks {
            let ghost outg = out@;
            out.push((b.name.clone(), rn.clone()));
            proof {
                assert(out@.drop_last() =~= outg);
                assert(pairs_view(out@) =~= pairs_view(outg).push((b.name@, rn@)));
                assert(pairs_view(out@) =~= locals_tracking(branches@.take(j + 1), rn@));
            }
        } else {
            proof {
                assert(pairs_view(out@) =~= locals_tracking(branches@.take(j + 1), rn@));
            }
        }
        j = j + 1;
    }
    proof {
        assert(branches@.take(branches@.len() as int) =~= branches@);
    }
    out
}

/// Builds the tracked-at-HEAD candidate tier.
pub fn tracked_candidates(branches: &Vec<BranchInfo>) -> (r: Vec<(String, String)>)
    ensures
        pairs_view(r@) == tier_tracked(branches@, branches@),
{
    let mut out: Vec<(String, String)> = Vec::new();
    let mut i: usize = 0;
    while i < branches.len()
        invariant
            i <= branches@.len(),
            pairs_view(out@) == tier_tracked(branches@.take(i as int), branches@),
        decreases branches@.len() - i,
    {
        proof {
            assert(branches@.take(i + 1).drop_last() =~= branches@.take(i as int));
            assert(branches@.take(i + 1).last() == branches@[i as int]);
        }
        let b = &branches[i];
        if b.remote && b.at_head && !crate::names::is_excluded_branch_name(b.name.as_str()) {
            let mut locals = locals_tracking_exec(branches, &b.name);
            let ghost outg = out@;
            let ghost localsg = locals@;
            let mut k: usize = 0;
            while k < locals.len()
                invariant
                    k <= localsg.len(),
                    locals@ == localsg,
                    pairs_view(out@) == pairs_view(outg) + pairs_view(localsg.take(k as int)),
                decreases localsg.len() - k,
            {
                let ghost outg2 = out@;
                out.push((locals[k].0.clone(), locals[k].1.clone()));
                proof {
                    assert(out@.drop_last() =~= outg2);
                    assert(pairs_view(out@) =~= pairs_view(outg2).push(
                        (localsg[k as int].0@, localsg[k as int].1@),
                    ));
                    assert(pairs_view(localsg.take(k + 1)) =~= pairs_view(
                        localsg.take(k as int),
                    ).push((localsg[k as int].0@, localsg[k as int].1@)));
                    assert(pairs_view(out@) =~= pairs_view(outg) + pairs_view(
                        localsg.take(k + 1),
                    ));
                }
                k = k + 1;
            }
            proof {
                assert(localsg.take(localsg.len() as int) =~= localsg);
                assert(pairs_view(out@) =~= tier_tracked(branches@.take(i + 1), branches@));
            }
        } else {
            proof {
                assert(pairs_view(out@) =~= tier_tracked(branches@.take(i + 1), branches@));
            }
        }
        i = i + 1;
    }
    proof {
        assert(branches@.take(branches@.len() as int) =~= branches@);
    }
    out
}

/// Builds the local-at-HEAD candidate tier.
pub fn local_candidates(branches: &Vec<BranchInfo>) -> (r: Vec<(String, String)>)
    ensures
        pairs_view(r@) == tier_local(branches@),
{
    let mut out: Vec<(String, String)> = Vec::new();
    let mut i: usize = 0;
    while i < branches.len()
        invariant
            i <= branches@.len(),
            pairs_view(out@) == tier_local(branches@.take(i as int)),
        decreases branches@.len() - i,
    {
        proof {
            assert(branches@.take(i + 1).drop_last() =~= branches@.take(i as int));
            assert(branches@.take(i + 1).last() == branches@[i as int]);
        }
        let b = &branches[i];
        if !b.remote && b.at_head && !crate::names::is_excluded_branch_name(b.name.as_str()) {
            let ghost outg = out@;
            out.push((b.name.clone(), b.name.clone()));
            proof {
                assert(out@.drop_last() =~= outg);
                assert(pairs_view(out@) =~= pairs_view(outg).push((b.name@, b.name@)));
                assert(pairs_view(out@) =~= tier_local(branches@.take(i + 1)));
            }
        } else {
            proof {
                assert(pairs_view(out@) =~= tier_local(branches@.take(i + 1)));
            }
        }
        i = i + 1;
    }
    proof {
        assert(branches@.take(branches@.len() as int) =~= branches@);
    }
    out
}

/// Builds the remote-at-HEAD candidate tier.
pub fn remote_candidates(branches: &Vec<BranchInfo>) -> (r: Vec<(String, String)>)
    ensures
        pairs_view(r@) == tier_remote(branches@),
{
    let mut out: Vec<(String, String)> = Vec::new();
    let mut i: usize = 0;
    while i < branches.len()
        invariant
            i <= branches@.len(),
            pairs_view(out@) == tier_remote(branches@.take(i as int)),
        decreases branches@.len() - i,
    {
        proof {
            assert(branches@.take(i + 1).drop_last() =~= branches@.take(i as int));
            assert(branches@.take(i + 1).last() == branches@[i as int]);
        }
        let b = &branches[i];
        if b.remote && b.at_head && !crate::names::is_excluded_branch_name(b.name.as_str()) {
            match crate::names::remote_branch_to_local(b.name.as_str()) {
                Some(canon) => {
                    let ghost outg = out@;
                    out.push((canon, b.name.clone()));
                    proof {
                        assert(out@.drop_last() =~= outg);
                        assert(pairs_view(out@) =~= pairs_view(outg).push(
                            (strip_remote(b.name@)->0, b.name@),
                        ));
                        assert(pairs_view(out@) =~= tier_remote(branches@.take(i + 1)));
                    }
                },
                None => {
                    proof {
                        assert(pairs_view(out@) =~= tier_remote(branches@.take(i + 1)));
                    }
                },
            }
        } else {
            proof {
                assert(pairs_view(out@) =~= tier_remote(branches@.take(i + 1)));
            }
        }
        i = i + 1;
    }
    proof {
        assert(branches@.take(branches@.len() as int) =~= branches@);
    }
    out
}

/// Builds the any-local candidate tier.
pub fn any_local_candidates(branches: &Vec<BranchInfo>) -> (r: Vec<(String, String)>)
    ensures
        pairs_view(r@) == tier_any_local(branches@),
{
    let mut out: Vec<(String, String)> = Vec::new();
    let mut i: usize = 0;
    while i < branches.len()
        invariant
            i <= branches@.len(),
            pairs_view(out@) == tier_any_local(branches@.take(i as int)),
        decreases branches@.len() - i,
    {
        proof {
            assert(branches@.take(i + 1).drop_last() =~= branches@.take(i as int));
            assert(branches@.take(i + 1).last() == branches@[i as int]);
        }
        let b = &branches[i];
        if !b.remote && !crate::names::is_excluded_branch_name(b.name.as_str()) {
            let ghost outg = out@;
            out.push((b.name.clone(), b.name.clone()));
            proof {
                assert(out@.drop_last() =~= outg);
                assert(pairs_view(out@) =~= pairs_view(outg).push((b.name@, b.name@)));
                assert(pairs_view(out@) =~= tier_any_local(branches@.take(i + 1)));
            }
        } else {
            proof {
                assert(pairs_view(out@) =~= tier_any_local(branches@.take(i + 1)));
            }
        }
        i = i + 1;
    }
    proof {
        assert(branches@.take(branches@.len() as int) =~= branches@);
    }
    out
}

/// The candidate set offered for a repository, with whether the hard-reset
/// warning applies: the first nonempty tier, in precedence order; `None`
/// when every tier is empty.
pub fn choose_candidates(branches: &Vec<BranchInfo>) -> (r: Option<(Vec<(String, String)>, bool)>)
    ensures
        match r {
            Some(p) => {
                &&& if tier_tracked(branches@, branches@).len() > 0 {
                    pairs_view(p.0@) == tier_tracked(branches@, branches@) && !p.1
                } else if tier_local(branches@).len() > 0 {
                    pairs_view(p.0@) == tier_local(branches@) && !p.1
                } else if tier_remote(branches@).len() > 0 {
                    pairs_view(p.0@) == tier_remote(branches@) && !p.1
                } else {
                    pairs_view(p.0@) == tier_any_local(branches@) && p.1
                }
                &&& p.0@.len() > 0
            },
            None => {
                &&& tier_tracked(branches@, branches@).len() == 0
                &&& tier_local(branches@).len() == 0
                &&& tier_remote(branches@).len() == 0
                &&& tier_any_local(branches@).len() == 0
            },
        },
{
    let first = tracked_candidates(branches);
    if first.len() > 0 {
        proof {
            assert(pairs_view(first@).len() == first@.len());
        }
        return Some((first, false));
    }
    let local = local_candidates(branches);
    if local.len() > 0 {
        proof {
            assert(pairs_view(local@).len() == local@.len());
        }
        return Some((local, false));
    }
    let remote = remote_candidates(branches);
    if remote.len() > 0 {
        proof {
            assert(pairs_view(remote@).len() == remote@.len());
        }
        return Some((remote, false));
    }
    let any = any_local_candidates(branches);
    if any.len() > 0 {
        proof {
            assert(pairs_view(any@).len() == any@.len());
        }
        return Some((any, true));
    }
    proof {
        assert(pairs_view(first@).len() == first@.len());
        assert(pairs_view(local@).len() == local@.len());
        assert(pairs_view(remote@).len() == remote@.len());
        assert(pairs_view(any@).len() == any@.len());
    }
    None
}

/// Whether a Y/n answer accepts the offered branch: only an answer starting
/// with `n` or `N` declines.
pub fn confirm_single(answer: &str) -> (r: bool)
    ensures
        r == !(answer@.len() > 0 && (answer@[0] == 'n' || answer@[0] == 'N')),
{
    if answer.unicode_len() == 0 {
        return true;
    }
    let c = answer.get_char(0);
    !(c == 'n' || c == 'N')
}

/// A digit character.
pub open spec fn is_digit(c: char) -> bool {
    '0' <= c && c <= '9'
}

/// The decimal value of a digit string.
pub open spec fn dec_value(s: Seq<char>) -> int
    decreases s.len(),
{
    if s.len() == 0 {
        0
    } else {
        dec_value(s.drop_last()) * 10 + (s.last() as int - '0' as int)
    }
}

proof fn lemma_dec_nonneg(s: Seq<char>)
    requires
        forall|i: int| 0 <= i < s.len() ==> is_digit(#[trigger] s[i]),
    ensures
        dec_value(s) >= 0,
    decreases s.len(),
{
    if s.len() > 0 {
        assert(forall|i: int| 0 <= i < s.len() - 1 ==> s.drop_last()[i] == s[i]);
        lemma_dec_nonneg(s.drop_last());
    }
}

/// Interprets a menu answer: a string of decimal digits naming a 1-based
/// index into a menu of `count` entries.  Returns the 0-based index, or
/// `None` for anything else (not all digits, empty, zero, or out of range).
pub fn menu_selection(answer: &str, count: usize) -> (r: Option<usize>)
    requires
        count < usize::MAX - 9,
    ensures
        match r {
            Some(ix) => {
                &&& answer@.len() > 0
                &&& forall|i: int| 0 <= i < answer@.len() ==> is_digit(#[trigger] answer@[i])
                &&& 1 <= dec_value(answer@) <= count
                &&& ix == dec_value(answer@) - 1
            },
            None => !(answer@.len() > 0 && (forall|i: int|
                0 <= i < answer@.len() ==> is_digit(#[trigger] answer@[i])) && 1 <= dec_value(
                answer@,
            ) <= count),
        },
{
    let n = answer.unicode_len();
    if n == 0 {
        return None;
    }
    let mut acc: usize = 0;
    let mut i: usize = 0;
    while i < n
        invariant
            i <= n,
            n == answer@.len(),
            count < usize::MAX - 9,
            forall|j: int| 0 <= j < i ==> is_digit(#[trigger] answer@[j]),
            dec_value(answer@.take(i as int)) <= count ==> acc == dec_value(
                answer@.take(i as int),
            ),
            dec_value(answer@.take(i as int)) > count ==> acc == count + 1,
            acc <= count + 1,
        decreases n - i,
    {
        let c = answer.get_char(i);
        if c < '0' || c > '9' {
            return None;
        }
        let d = (c as u32 - '0' as u32) as usize;
        proof {
            assert(answer@.take(i + 1).drop_last() =~= answer@.take(i as int));
            assert(answer@.take(i + 1).last() == answer@[i as int]);
            assert(forall|j: int|
                0 <= j < i + 1 ==> is_digit(#[trigger] answer@.take(i + 1)[j]));
            lemma_dec_nonneg(answer@.take(i + 1));
            lemma_dec_nonneg(answer@.take(i as int));
        }
        proof {
            assert(count / 10 * 10 + 9 >= count);
        }
        let next = if acc > count {
            acc
        } else if acc > count / 10 {
            count + 1
        } else {
            let v = acc * 10 + d;
            if v > count {
                count + 1
            } else {
                v
            }
        };
        proof {
            let pre = dec_value(answer@.take(i as int));
            let now = dec_value(answer@.take(i + 1));
            assert(now == pre * 10 + d);
            if pre > count {
                assert(now > count);
            }
            if pre <= count && pre > count / 10 {
                assert(pre >= count / 10 + 1);
                assert(pre * 10 >= (count / 10 + 1) * 10);
                assert(now > count);
            }
        }
        acc = next;
        i = i + 1;
    }
    proof {
        assert(answer@.take(n as int) =~= answer@);
    }
    if acc >= 1 && acc <= count {
        Some(acc - 1)
    } else {
        None
    }
}

/// Whether any node of the forest still carries a marker branch of an
/// earlier, failed run.
pub fn forest_has_markers(f: &Forest) -> (r: bool)
    ensures
        r == exists|i: int| 0 <= i < f.nodes@.len() && !no_markers(f.nodes@[i].repo),
{
    let mo = marker_old();
    let mc = marker_cur();
    let mn = marker_new();
    let mt = marker_track();
    let mut i: usize = 0;
    while i < f.nodes.len()
        invariant
            mo@ == "multi_rebase_old"@,
            mc@ == "multi_rebase_cur"@,
            mn@ == "multi_rebase_new"@,
            mt@ == "multi_rebase_track"@,
            i <= f.nodes@.len(),
            forall|j: int| 0 <= j < i ==> no_markers(f.nodes@[j].repo),
        decreases f.nodes@.len() - i,
    {
        let r = &f.nodes[i].repo;
        if r.has_branch(&mo) || r.has_branch(&mc) || r.has_branch(&mn) || r.has_branch(&mt) {
            return true;
        }
        i = i + 1;
    }
    false
}

/// Deletes every marker branch at every node: the cleanup offered when a
/// prior run left markers behind.  Nothing else changes.
pub fn clean_markers(f: &mut Forest)
    requires
        crate::driver::forest_wf(*old(f)),
    ensures
        crate::driver::same_shape(*old(f), *final(f)),
        crate::driver::forest_wf(*final(f)),
        crate::driver::forest_backups_kept(*old(f), *final(f)),
        forall|i: int|
            0 <= i < final(f).nodes@.len() ==> no_markers((#[trigger] final(f).nodes@[i]).repo),
        forall|i: int|
            0 <= i < final(f).nodes@.len() ==> (#[trigger] final(f).nodes@[i]).repo.commits@
                == old(f).nodes@[i].repo.commits@ && final(f).nodes@[i].repo.workdir == old(
                f,
            ).nodes@[i].repo.workdir,
{
    let ghost f0 = *f;
    let mo = marker_old();
    let mc = marker_cur();
    let mn = marker_new();
    let mt = marker_track();
    let mut i: usize = 0;
    while i < f.nodes.len()
        invariant
            f0 == *old(f),
            crate::driver::forest_wf(f0),
            crate::driver::forest_wf(*f),
            crate::driver::same_shape(f0, *f),
            mo@ == "multi_rebase_old"@,
            mc@ == "multi_rebase_cur"@,
            mn@ == "multi_rebase_new"@,
            mt@ == "multi_rebase_track"@,
            i <= f0.nodes@.len(),
            forall|j: int| i <= j < f0.nodes@.len() ==> f.nodes@[j] == f0.nodes@[j],
            forall|j: int| 0 <= j < i ==> no_markers((#[trigger] f.nodes@[j]).repo),
            forall|j: int|
                0 <= j < i ==> crate::driver::backups_kept(
                    f0.nodes@[j].repo,
                    (#[trigger] f.nodes@[j]).repo,
                ),
            forall|j: int|
                0 <= j < f0.nodes@.len() ==> (#[trigger] f.nodes@[j]).repo.commits@
                    == f0.nodes@[j].repo.commits@ && f.nodes@[j].repo.workdir
                    == f0.nodes@[j].repo.workdir,
        decreases f0.nodes@.len() - i,
    {
        // A HEAD sitting on a marker branch would dangle after the
        // deletion; pre-flight detaches it first.
        let hd = f.nodes[i].repo.head_commit();
        let on_marker = {
            let name = f.nodes[i].repo.head_name();
            crate::names::str_eq(name.as_str(), "multi_rebase_old") || crate::names::str_eq(
                name.as_str(),
                "multi_rebase_cur",
            ) || crate::names::str_eq(name.as_str(), "multi_rebase_new") || crate::names::str_eq(
                name.as_str(),
                "multi_rebase_track",
            )
        };
        if on_marker {
            f.nodes[i].repo.set_head_detached(hd);
        }
        f.nodes[i].repo.delete_branch(&mo);
        f.nodes[i].repo.delete_branch(&mc);
        f.nodes[i].repo.delete_branch(&mn);
        f.nodes[i].repo.delete_branch(&mt);
        proof {
            crate::driver::lemma_marker_names_distinct();
            assert forall|n: Seq<char>|
                crate::names::spec_backup_branch(n) && #[trigger] f0.nodes@[
                    i as int].repo.branches_map().dom().contains(n) implies f.nodes@[
                i as int].repo.branches_map().dom().contains(n) by {
                crate::driver::lemma_marker_not_backup("multi_rebase_old"@);
                crate::driver::lemma_marker_not_backup("multi_rebase_cur"@);
                crate::driver::lemma_marker_not_backup("multi_rebase_new"@);
                crate::driver::lemma_marker_not_backup("multi_rebase_track"@);
            }
        }
        i = i + 1;
    }
}

} // verus!
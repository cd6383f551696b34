use stash_tree::graph::{CommitGraph, CommitInfo, ResolutionError};
use stash_tree::topology::{build_topology, BranchTip, GitRef, StashRecord};

fn commit(id: u64, timestamp: i64, parents: &[u64]) -> CommitInfo {
    CommitInfo { id, timestamp, parents: parents.to_vec() }
}

fn stash(index: usize, message: &str, id: u64) -> StashRecord {
    StashRecord { index, message: String::from(message), id }
}

fn branch(name: &str, tip: u64) -> BranchTip {
    BranchTip { name: String::from(name), tip }
}

fn stash_indices(refs: &[GitRef]) -> Vec<Option<usize>> {
    refs.iter()
        .map(|r| match r {
            GitRef::Stash(s) => Some(s.record.index),
            GitRef::Branch(_) => None,
        })
        .collect()
}

#[test]
fn three_stashes_scenario() {
    // B1 (1) is an ancestor of "feature" (tip 2); B2 (3) is an ancestor of
    // "main" (tip 4), the current branch; B3 (5) is an ancestor of neither.
    let g = CommitGraph {
        commits: vec![
            commit(1, 100, &[]),
            commit(2, 150, &[1]),
            commit(3, 200, &[]),
            commit(4, 250, &[3]),
            commit(5, 300, &[]),
            commit(11, 400, &[1]), // stash1 commit, based on B1
            commit(12, 400, &[3]), // stash2 commit, based on B2
            commit(13, 400, &[5]), // stash3 commit, based on B3
        ],
    };
    let branches = vec![branch("main", 4), branch("feature", 2)];
    let stashes = vec![stash(0, "stash1", 11), stash(1, "stash2", 12), stash(2, "stash3", 13)];

    let topo = build_topology(&g, &branches, &stashes, String::from("main"));

    assert_eq!(topo.root.name, "main");
    assert!(topo.failures.is_empty());

    assert_eq!(topo.orphans.len(), 1);
    assert_eq!(topo.orphans[0].record.index, 2);
    assert_eq!(topo.orphans[0].base.id, 5);

    assert_eq!(topo.root.refs.len(), 2);
    // The nested node's derived timestamp (100) precedes stash2's (200).
    match &topo.root.refs[0] {
        GitRef::Branch(node) => {
            assert_eq!(node.name, "feature");
            assert_eq!(stash_indices(&node.refs), vec![Some(0)]);
        }
        GitRef::Stash(_) => panic!("expected the feature node first"),
    }
    match &topo.root.refs[1] {
        GitRef::Stash(s) => {
            assert_eq!(s.record.index, 1);
            assert_eq!(s.base.id, 3);
        }
        GitRef::Branch(_) => panic!("expected the direct stash second"),
    }
}

#[test]
fn stashes_sort_by_base_timestamp() {
    // Three bases under "main", timestamps 300, 100, 200.
    let g = CommitGraph {
        commits: vec![
            commit(1, 300, &[]),
            commit(2, 100, &[1]),
            commit(3, 200, &[2]),
            commit(4, 50, &[3]), // tip; bases reach it via parent links upward
            commit(11, 0, &[1]),
            commit(12, 0, &[2]),
            commit(13, 0, &[3]),
        ],
    };
    // tip 4 has parents 3 <- 2 <- 1, so all three bases are its ancestors
    let branches = vec![branch("main", 4)];
    let stashes = vec![stash(0, "a", 11), stash(1, "b", 12), stash(2, "c", 13)];
    let topo = build_topology(&g, &branches, &stashes, String::from("main"));

    assert!(topo.failures.is_empty());
    assert!(topo.orphans.is_empty());
    let ts: Vec<i64> = topo
        .root
        .refs
        .iter()
        .map(|r| match r {
            GitRef::Stash(s) => s.base.timestamp,
            GitRef::Branch(_) => panic!("expected only direct stashes"),
        })
        .collect();
    assert_eq!(ts, vec![100, 200, 300]);
}

#[test]
fn equal_timestamps_keep_enumeration_order() {
    // Two distinct bases with identical timestamps under "main".
    let g = CommitGraph {
        commits: vec![
            commit(6, 200, &[]),
            commit(3, 200, &[6]),
            commit(4, 250, &[3]),
            commit(11, 0, &[6]),
            commit(12, 0, &[3]),
        ],
    };
    let branches = vec![branch("main", 4)];
    let stashes = vec![stash(0, "first", 11), stash(1, "second", 12)];
    let topo = build_topology(&g, &branches, &stashes, String::from("main"));

    assert_eq!(stash_indices(&topo.root.refs), vec![Some(0), Some(1)]);
}

#[test]
fn tie_between_branches_goes_to_the_first() {
    // The base is an ancestor of both tips; the first branch in order wins.
    let g = CommitGraph {
        commits: vec![
            commit(1, 100, &[]),
            commit(2, 150, &[1]),
            commit(3, 160, &[1]),
            commit(11, 0, &[1]),
        ],
    };
    let branches = vec![branch("alpha", 2), branch("beta", 3)];
    let stashes = vec![stash(0, "s", 11)];
    let topo = build_topology(&g, &branches, &stashes, String::from("main"));

    assert_eq!(topo.root.refs.len(), 1);
    match &topo.root.refs[0] {
        GitRef::Branch(node) => {
            assert_eq!(node.name, "alpha");
            assert_eq!(stash_indices(&node.refs), vec![Some(0)]);
        }
        GitRef::Stash(_) => panic!("expected a nested node"),
    }
}

#[test]
fn unresolvable_stash_is_reported_not_dropped_silently() {
    let g = CommitGraph {
        commits: vec![commit(1, 100, &[]), commit(2, 150, &[1]), commit(11, 0, &[1])],
    };
    let branches = vec![branch("main", 2)];
    let stashes = vec![
        stash(0, "good", 11),
        stash(1, "missing commit", 999),
        stash(2, "parentless", 1),
    ];
    let topo = build_topology(&g, &branches, &stashes, String::from("main"));

    assert_eq!(topo.failures.len(), 2);
    assert_eq!(topo.failures[0].record.index, 1);
    assert_eq!(topo.failures[0].error, ResolutionError::StashCommitMissing);
    assert_eq!(topo.failures[1].record.index, 2);
    assert_eq!(topo.failures[1].error, ResolutionError::BaseCommitMissing);

    assert!(topo.orphans.is_empty());
    assert_eq!(stash_indices(&topo.root.refs), vec![Some(0)]);
}

#[test]
fn orphans_keep_enumeration_order() {
    let g = CommitGraph {
        commits: vec![
            commit(1, 100, &[]),
            commit(5, 300, &[]),
            commit(6, 200, &[]),
            commit(11, 0, &[5]),
            commit(12, 0, &[6]),
        ],
    };
    let branches = vec![branch("main", 1)];
    let stashes = vec![stash(0, "late orphan", 11), stash(1, "early orphan", 12)];
    let topo = build_topology(&g, &branches, &stashes, String::from("main"));

    assert!(topo.root.refs.is_empty());
    // Orphans stay in enumeration order, not timestamp order.
    let ids: Vec<u64> = topo.orphans.iter().map(|o| o.base.id).collect();
    assert_eq!(ids, vec![5, 6]);
}

#[test]
fn root_reference_tie_keeps_direct_stashes_first() {
    // The direct stash and the nested node derive the same timestamp; the
    // direct stash was encountered first and stays first.
    let g = CommitGraph {
        commits: vec![
            commit(1, 200, &[]), // base under "main"
            commit(2, 250, &[1]), // main tip
            commit(3, 200, &[]), // base under "feature", same timestamp
            commit(4, 260, &[3]), // feature tip
            commit(11, 0, &[1]),
            commit(12, 0, &[3]),
        ],
    };
    let branches = vec![branch("main", 2), branch("feature", 4)];
    let stashes = vec![stash(0, "direct", 11), stash(1, "nested", 12)];
    let topo = build_topology(&g, &branches, &stashes, String::from("main"));

    assert_eq!(topo.root.refs.len(), 2);
    assert!(matches!(&topo.root.refs[0], GitRef::Stash(s) if s.record.index == 0));
    assert!(matches!(&topo.root.refs[1], GitRef::Branch(n) if n.name == "feature"));
}

#[test]
fn no_stashes_yield_an_empty_topology() {
    let g = CommitGraph { commits: vec![commit(1, 100, &[])] };
    let branches = vec![branch("main", 1)];
    let stashes: Vec<StashRecord> = Vec::new();
    let topo = build_topology(&g, &branches, &stashes, String::from("main"));
    assert_eq!(topo.root.name, "main");
    assert!(topo.root.refs.is_empty());
    assert!(topo.orphans.is_empty());
    assert!(topo.failures.is_empty());
}

#[test]
fn root_name_without_branch_gets_only_nested_nodes() {
    let g = CommitGraph {
        commits: vec![commit(1, 100, &[]), commit(2, 150, &[1]), commit(11, 0, &[1])],
    };
    let branches = vec![branch("feature", 2)];
    let stashes = vec![stash(0, "s", 11)];
    let topo = build_topology(&g, &branches, &stashes, String::from("main"));

    assert_eq!(topo.root.name, "main");
    assert_eq!(topo.root.refs.len(), 1);
    match &topo.root.refs[0] {
        GitRef::Branch(node) => assert_eq!(node.name, "feature"),
        GitRef::Stash(_) => panic!("expected a nested node"),
    }
}

use stash_tree::graph::{
    is_ancestor, resolve_base, BaseCommit, CommitGraph, CommitInfo, ResolutionError,
};

fn commit(id: u64, timestamp: i64, parents: &[u64]) -> CommitInfo {
    CommitInfo { id, timestamp, parents: parents.to_vec() }
}

fn chain() -> CommitGraph {
    // 1 <- 2 <- 3, and 10 unrelated
    CommitGraph {
        commits: vec![
            commit(1, 100, &[]),
            commit(2, 200, &[1]),
            commit(3, 300, &[2]),
            commit(10, 50, &[]),
        ],
    }
}

#[test]
fn ancestor_along_chain() {
    let g = chain();
    assert!(is_ancestor(&g, 1, 3));
    assert!(is_ancestor(&g, 2, 3));
    assert!(is_ancestor(&g, 1, 2));
    assert!(!is_ancestor(&g, 3, 1));
    assert!(!is_ancestor(&g, 10, 3));
    assert!(!is_ancestor(&g, 3, 10));
}

#[test]
fn every_commit_reaches_itself() {
    let g = chain();
    assert!(is_ancestor(&g, 3, 3));
    assert!(is_ancestor(&g, 10, 10));
    // even identifiers the graph has never seen
    assert!(is_ancestor(&g, 999, 999));
}

#[test]
fn ancestor_through_merge_parents() {
    // 1 <- 2, 1 <- 3, merge 4 with parents [2, 3], 5 on top of 4
    let g = CommitGraph {
        commits: vec![
            commit(1, 10, &[]),
            commit(2, 20, &[1]),
            commit(3, 30, &[1]),
            commit(4, 40, &[2, 3]),
            commit(5, 50, &[4]),
        ],
    };
    assert!(is_ancestor(&g, 3, 5));
    assert!(is_ancestor(&g, 2, 5));
    assert!(is_ancestor(&g, 1, 5));
    assert!(!is_ancestor(&g, 5, 1));
    assert!(!is_ancestor(&g, 2, 3));
}

#[test]
fn missing_commit_has_no_ancestors() {
    let g = chain();
    assert!(!is_ancestor(&g, 1, 999));
}

#[test]
fn resolve_base_returns_first_parent() {
    // stash commit 20 on top of base 2
    let mut g = chain();
    g.commits.push(commit(20, 400, &[2, 3]));
    assert_eq!(resolve_base(&g, 20), Ok(BaseCommit { id: 2, timestamp: 200 }));
}

#[test]
fn resolve_base_missing_stash_commit() {
    let g = chain();
    assert_eq!(resolve_base(&g, 999), Err(ResolutionError::StashCommitMissing));
}

#[test]
fn resolve_base_parentless_commit() {
    let g = chain();
    assert_eq!(resolve_base(&g, 1), Err(ResolutionError::BaseCommitMissing));
}

#[test]
fn resolve_base_parent_not_in_graph() {
    let mut g = chain();
    g.commits.push(commit(30, 500, &[777]));
    assert_eq!(resolve_base(&g, 30), Err(ResolutionError::BaseCommitMissing));
}

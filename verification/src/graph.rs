//! Commit graph model and ancestry queries.
//!
//! The topology builder needs three read-only questions answered about the
//! repository's commit graph: what a commit's first parent is, what its
//! timestamp is, and whether one commit is reachable from another by
//! following parent links. The graph is handed in as plain data: one record
//! per commit, carrying its identifier, its timestamp in seconds since the
//! epoch, and its parent identifiers. Commit identifiers are small handles
//! chosen by the caller, one per distinct commit.

use vstd::prelude::*;
use vstd::seq_lib::*;
use vstd::set_lib::*;

verus! {

broadcast use vstd::seq_lib::group_seq_properties;

/// One commit of the graph: identifier, timestamp, parent identifiers in
/// parent order (first parent first).
#[derive(Debug, PartialEq, Eq)]
pub struct CommitInfo {
    pub id: u64,
    pub timestamp: i64,
    pub parents: Vec<u64>,
}

/// A repository's commit graph, as far as the caller walked it. A commit
/// whose identifier appears only as a parent of another commit has no
/// outgoing edges here.
#[derive(Debug, PartialEq, Eq)]
pub struct CommitGraph {
    pub commits: Vec<CommitInfo>,
}

/// The first commit record carrying this identifier, if any.
pub open spec fn lookup(g: Seq<CommitInfo>, id: u64) -> Option<CommitInfo>
    decreases g.len(),
{
    if g.len() == 0 {
        Option::None
    } else if g[0].id == id {
        Option::Some(g[0])
    } else {
        lookup(g.drop_first(), id)
    }
}

/// Whether `p` is a direct parent of the commit `c`.
pub open spec fn parent_step(g: Seq<CommitInfo>, c: u64, p: u64) -> bool {
    match lookup(g, c) {
        Option::Some(ci) => ci.parents@.contains(p),
        Option::None => false,
    }
}

/// Whether `to` is reachable from `from` in at most `n` parent steps.
pub open spec fn reaches_n(g: Seq<CommitInfo>, from: u64, to: u64, n: nat) -> bool
    decreases n,
{
    from == to || (n > 0 && exists|p: u64|
        #[trigger] parent_step(g, from, p) && reaches_n(g, p, to, (n - 1) as nat))
}

/// Whether `to` is reachable from `from` by following parent links; zero
/// links counts, so every commit reaches itself. `reaches(g, tip, c)` says
/// that `c` equals the tip or is an ancestor of it.
pub open spec fn reaches(g: Seq<CommitInfo>, from: u64, to: u64) -> bool {
    exists|n: nat| reaches_n(g, from, to, n)
}

/// Reachability extends by one parent step at the far end.
proof fn lemma_reaches_extend(g: Seq<CommitInfo>, from: u64, mid: u64, p: u64, n: nat)
    requires
        reaches_n(g, from, mid, n),
        parent_step(g, mid, p),
    ensures
        reaches_n(g, from, p, n + 1),
    decreases n,
{
    if from == mid {
        assert(reaches_n(g, p, p, n as nat));
        assert(parent_step(g, from, p) && reaches_n(g, p, p, ((n + 1) - 1) as nat));
        assert(reaches_n(g, from, p, n + 1));
    } else {
        let q = choose|q: u64|
            #[trigger] parent_step(g, from, q) && reaches_n(g, q, mid, (n - 1) as nat);
        lemma_reaches_extend(g, q, mid, p, (n - 1) as nat);
        assert(parent_step(g, from, q) && reaches_n(g, q, p, ((n + 1) - 1) as nat));
        assert(reaches_n(g, from, p, n + 1));
    }
}

/// A set of identifiers closed under parent steps and containing `from`
/// contains everything reachable from `from`.
proof fn lemma_closed_contains_reachable(
    g: Seq<CommitInfo>,
    s: Seq<u64>,
    from: u64,
    to: u64,
    n: nat,
)
    requires
        s.contains(from),
        forall|v: u64, p: u64|
            s.contains(v) && #[trigger] parent_step(g, v, p) ==> s.contains(p),
        reaches_n(g, from, to, n),
    ensures
        s.contains(to),
    decreases n,
{
    if from != to {
        let p = choose|p: u64|
            #[trigger] parent_step(g, from, p) && reaches_n(g, p, to, (n - 1) as nat);
        lemma_closed_contains_reachable(g, s, p, to, (n - 1) as nat);
    }
}

/// Every parent identifier occurring anywhere in the graph.
pub open spec fn all_parent_ids(g: Seq<CommitInfo>) -> Seq<u64>
    decreases g.len(),
{
    if g.len() == 0 {
        Seq::empty()
    } else {
        all_parent_ids(g.drop_last()) + g.last().parents@
    }
}

/// A parent reached by one step occurs among the graph's parent identifiers.
proof fn lemma_parent_step_in_all(g: Seq<CommitInfo>, c: u64, p: u64)
    requires
        parent_step(g, c, p),
    ensures
        all_parent_ids(g).contains(p),
    decreases g.len(),
{
    let ci = lookup(g, c)->Some_0;
    lemma_lookup_is_member(g, c);
    let i = choose|i: int| 0 <= i < g.len() && g[i] == ci;
    lemma_member_parents_in_all(g, i, p);
}

/// A looked-up commit is a member of the graph sequence.
proof fn lemma_lookup_is_member(g: Seq<CommitInfo>, c: u64)
    requires
        lookup(g, c) is Some,
    ensures
        exists|i: int| 0 <= i < g.len() && g[i] == lookup(g, c)->Some_0,
    decreases g.len(),
{
    if g.len() > 0 && g[0].id != c {
        lemma_lookup_is_member(g.drop_first(), c);
        let j = choose|j: int|
            0 <= j < g.drop_first().len() && g.drop_first()[j] == lookup(g.drop_first(), c)->Some_0;
        assert(g[j + 1] == lookup(g, c)->Some_0);
    }
}

/// A parent of any member commit occurs among the graph's parent identifiers.
proof fn lemma_member_parents_in_all(g: Seq<CommitInfo>, i: int, p: u64)
    requires
        0 <= i < g.len(),
        g[i].parents@.contains(p),
    ensures
        all_parent_ids(g).contains(p),
    decreases g.len(),
{
    if i == g.len() - 1 {
        let j = choose|j: int| 0 <= j < g.last().parents@.len() && g.last().parents@[j] == p;
        assert(all_parent_ids(g)[all_parent_ids(g.drop_last()).len() + j] == p);
    } else {
        lemma_member_parents_in_all(g.drop_last(), i, p);
        let j = choose|j: int|
            0 <= j < all_parent_ids(g.drop_last()).len() && all_parent_ids(g.drop_last())[j] == p;
        assert(all_parent_ids(g)[j] == p);
    }
}

/// Finds the first commit record with the given identifier.
pub fn find_commit<'a>(g: &'a CommitGraph, id: u64) -> (r: Option<&'a CommitInfo>)
    ensures
        match r {
            Option::Some(c) => lookup(g.commits@, id) == Option::Some(*c),
            Option::None => lookup(g.commits@, id) is None,
        },
{
    let n = g.commits.len();
    let mut i: usize = 0;
    assert(g.commits@.skip(0) =~= g.commits@);
    while i < n
        invariant
            n == g.commits.len(),
            i <= n,
            lookup(g.commits@, id) == lookup(g.commits@.skip(i as int), id),
            forall|k: int| 0 <= k < i ==> g.commits@[k].id != id,
        decreases n - i,
    {
        if g.commits[i].id == id {
            assert(g.commits@.skip(i as int)[0] == g.commits@[i as int]);
            return Option::Some(&g.commits[i]);
        }
        proof {
            assert(g.commits@.skip(i as int).drop_first() =~= g.commits@.skip(i + 1));
        }
        i = i + 1;
    }
    assert(g.commits@.skip(n as int) =~= Seq::<CommitInfo>::empty());
    Option::None
}

fn contains_id(v: &Vec<u64>, x: u64) -> (r: bool)
    ensures
        r == v@.contains(x),
{
    let n = v.len();
    let mut i: usize = 0;
    while i < n
        invariant
            n == v.len(),
            i <= n,
            forall|k: int| 0 <= k < i ==> v@[k] != x,
        decreases n - i,
    {
        if v[i] == x {
            return true;
        }
        i = i + 1;
    }
    false
}

/// Answers whether `candidate` equals `tip` or is an ancestor of it: is
/// `candidate` reachable from `tip` by following parent links?
///
/// A worklist search over the parent links; it terminates
/// because every identifier it ever visits is the tip or occurs in some
/// commit's parent list, and it never visits one twice.
pub fn is_ancestor(g: &CommitGraph, candidate: u64, tip: u64) -> (r: bool)
    ensures
        r == reaches(g.commits@, tip, candidate),
{
    let ghost gs = g.commits@;
    if tip == candidate {
        proof {
            assert(reaches_n(gs, tip, candidate, 0nat));
        }
        return true;
    }
    let ghost allowed = seq![tip] + all_parent_ids(gs);
    let mut visited: Vec<u64> = Vec::new();
    let mut work: Vec<u64> = Vec::new();
    visited.push(tip);
    work.push(tip);
    proof {
        assert(reaches_n(gs, tip, tip, 0nat));
        assert(allowed[0] == tip);
        assert(allowed.contains(tip));
        assert(visited@[0] == tip);
        assert(visited@.contains(tip));
        assert(work@[0] == tip);
        lemma_visited_bound(allowed, visited@);
    }
    loop
        invariant
            gs == g.commits@,
            allowed == seq![tip] + all_parent_ids(gs),
            visited@.no_duplicates(),
            forall|k: int| 0 <= k < visited@.len() ==> allowed.contains(#[trigger] visited@[k]),
            visited@.len() <= allowed.len() + 1,
            forall|k: int| 0 <= k < work@.len() ==> visited@.contains(#[trigger] work@[k]),
            visited@.contains(tip),
            forall|k: int| 0 <= k < visited@.len() ==> reaches(gs, tip, #[trigger] visited@[k]),
            !visited@.contains(candidate),
            forall|v: u64, p: u64|
                visited@.contains(v) && !work@.contains(v) && #[trigger] parent_step(gs, v, p)
                    ==> visited@.contains(p),
        decreases allowed.len() + 1 - visited@.len(), work@.len(),
    {
        if work.len() == 0 {
            proof {
                if reaches(gs, tip, candidate) {
                    let n = choose|n: nat| reaches_n(gs, tip, candidate, n);
                    lemma_closed_contains_reachable(gs, visited@, tip, candidate, n);
                }
            }
            return false;
        }
        let ghost pre_work = work@;
        let u = work.pop().unwrap();
        assert(visited@.contains(u));
        let ghost mid_work = work@;
        assert(forall|k: int| 0 <= k < mid_work.len() ==> mid_work[k] == pre_work[k]);
        match find_commit(g, u) {
            Option::Some(ci) => {
                let np = ci.parents.len();
                let mut j: usize = 0;
                let ghost entry_visited = visited@;
                while j < np
                    invariant
                        gs == g.commits@,
                        allowed == seq![tip] + all_parent_ids(gs),
                        np == ci.parents.len(),
                        j <= np,
                        lookup(gs, u) == Option::Some(*ci),
                        visited@.no_duplicates(),
                        forall|k: int|
                            0 <= k < visited@.len() ==> allowed.contains(#[trigger] visited@[k]),
                        forall|k: int|
                            0 <= k < work@.len() ==> visited@.contains(#[trigger] work@[k]),
                        visited@.contains(tip),
                        forall|k: int|
                            0 <= k < visited@.len() ==> reaches(gs, tip, #[trigger] visited@[k]),
                        !visited@.contains(candidate),
                        forall|v: u64, p: u64|
                            visited@.contains(v) && !work@.contains(v) && v != u
                                && #[trigger] parent_step(gs, v, p) ==> visited@.contains(p),
                        forall|k: int|
                            0 <= k < j ==> visited@.contains(#[trigger] ci.parents@[k]),
                        entry_visited.len() <= visited@.len(),
                        entry_visited.len() < visited@.len() || work@ == mid_work,
                        reaches(gs, tip, u),
                    decreases np - j,
                {
                    let p = ci.parents[j];
                    assert(parent_step(gs, u, p));
                    if p == candidate {
                        proof {
                            let n = choose|n: nat| reaches_n(gs, tip, u, n);
                            lemma_reaches_extend(gs, tip, u, p, n);
                        }
                        return true;
                    }
                    if !contains_id(&visited, p) {
                        proof {
                            lemma_parent_step_in_all(gs, u, p);
                            assert(allowed.contains(p)) by {
                                let j2 = choose|j2: int|
                                    0 <= j2 < all_parent_ids(gs).len() && all_parent_ids(gs)[j2]
                                        == p;
                                assert(seq![tip].len() == 1);
                                assert(allowed[j2 + 1] == all_parent_ids(gs)[j2]);
                            }
                            let n = choose|n: nat| reaches_n(gs, tip, u, n);
                            lemma_reaches_extend(gs, tip, u, p, n);
                        }
                        visited.push(p);
                        work.push(p);
                    }
                    j = j + 1;
                }
                proof {
                    assert forall|p: u64| #[trigger] parent_step(gs, u, p) implies visited@.contains(
                        p,
                    ) by {
                        assert(ci.parents@.contains(p));
                        let k = choose|k: int| 0 <= k < ci.parents@.len() && ci.parents@[k] == p;
                        assert(visited@.contains(ci.parents@[k]));
                    }
                }
            },
            Option::None => {
                proof {
                    assert(forall|p: u64| !(#[trigger] parent_step(gs, u, p)));
                }
            },
        }
        proof {
            lemma_visited_bound(allowed, visited@);
        }
    }
}

/// Why one stash's base commit could not be resolved. The failure is
/// per-stash: it never aborts a whole topology build.
#[derive(Clone, Copy, Debug, PartialEq, Eq, Structural)]
pub enum ResolutionError {
    /// The stash's own commit is not in the graph.
    StashCommitMissing,
    /// The stash's commit has no first parent, or the parent commit is not
    /// in the graph.
    BaseCommitMissing,
}

/// The commit a stash was taken from: its identifier and its timestamp in
/// seconds since the epoch.
#[derive(Clone, Copy, Debug, PartialEq, Eq, Structural)]
pub struct BaseCommit {
    pub id: u64,
    pub timestamp: i64,
}

/// What resolving a stash's base commit yields: the first parent of the
/// stash's own commit, or the error naming what was missing.
pub open spec fn resolve_base_spec(g: Seq<CommitInfo>, stash_commit: u64) -> Result<
    BaseCommit,
    ResolutionError,
> {
    match lookup(g, stash_commit) {
        Option::None => Result::Err(ResolutionError::StashCommitMissing),
        Option::Some(c) => {
            if c.parents@.len() == 0 {
                Result::Err(ResolutionError::BaseCommitMissing)
            } else {
                match lookup(g, c.parents@[0]) {
                    Option::None => Result::Err(ResolutionError::BaseCommitMissing),
                    Option::Some(p) => Result::Ok(
                        BaseCommit { id: p.id, timestamp: p.timestamp },
                    ),
                }
            }
        },
    }
}

/// Resolves a stash's base commit: the first parent of the stash's own
/// commit. Fails exactly when the stash commit is missing from the graph,
/// has no parent, or its first parent is missing from the graph.
pub fn resolve_base(g: &CommitGraph, stash_commit: u64) -> (r: Result<BaseCommit, ResolutionError>)
    ensures
        r == resolve_base_spec(g.commits@, stash_commit),
{
    match find_commit(g, stash_commit) {
        Option::None => Result::Err(ResolutionError::StashCommitMissing),
        Option::Some(c) => {
            if c.parents.len() == 0 {
                Result::Err(ResolutionError::BaseCommitMissing)
            } else {
                let pid = c.parents[0];
                match find_commit(g, pid) {
                    Option::None => Result::Err(ResolutionError::BaseCommitMissing),
                    Option::Some(p) => Result::Ok(
                        BaseCommit { id: p.id, timestamp: p.timestamp },
                    ),
                }
            }
        },
    }
}

/// A duplicate-free sequence drawn from `allowed` is no longer than it.
proof fn lemma_visited_bound(allowed: Seq<u64>, visited: Seq<u64>)
    requires
        visited.no_duplicates(),
        forall|k: int| 0 <= k < visited.len() ==> allowed.contains(#[trigger] visited[k]),
    ensures
        visited.len() <= allowed.len(),
{
    visited.unique_seq_to_set();
    allowed.lemma_cardinality_of_set();
    assert(visited.to_set().subset_of(allowed.to_set())) by {
        assert forall|x: u64| visited.to_set().contains(x) implies allowed.to_set().contains(
            x,
        ) by {
            assert(visited.contains(x));
        }
    }
    lemma_len_subset(visited.to_set(), allowed.to_set());
}

} // verus!

//! Stash topology builder.
//!
//! Attributes each stash to the local branch it was taken from, groups the
//! attributed stashes per branch, orders everything by base-commit
//! timestamp with a stable tie-break, and collects orphans (stashes whose
//! base commit is reachable from no branch tip) and per-stash resolution
//! failures. One unreadable stash never aborts the whole build.

use crate::graph::is_ancestor;
use crate::graph::reaches;
use crate::graph::resolve_base;
use crate::graph::resolve_base_spec;
use crate::graph::BaseCommit;
use crate::graph::CommitGraph;
use crate::graph::CommitInfo;
use crate::graph::ResolutionError;
use vstd::prelude::*;

verus! {

broadcast use vstd::seq_lib::group_seq_properties;

/// Identity of one stash as the backend enumerates it: its position in the
/// stash list, its message, and its stash-commit identifier.
#[derive(Debug, PartialEq, Eq)]
pub struct StashRecord {
    pub index: usize,
    pub message: String,
    pub id: u64,
}

/// A stash together with its resolved base commit.
#[derive(Debug, PartialEq, Eq)]
pub struct ResolvedStash {
    pub record: StashRecord,
    pub base: BaseCommit,
}

/// One local branch: its name and its tip commit identifier.
#[derive(Debug, PartialEq, Eq)]
pub struct BranchTip {
    pub name: String,
    pub tip: u64,
}

/// One branch's topology entry: its name, a fallback timestamp (the epoch
/// for constructed nodes), and its ordered references.
#[derive(Debug, PartialEq, Eq)]
pub struct BranchNode {
    pub name: String,
    pub timestamp: i64,
    pub refs: Vec<GitRef>,
}

/// One reference under a branch node: a stash, or a nested branch.
#[derive(Debug, PartialEq, Eq)]
pub enum GitRef {
    Stash(ResolvedStash),
    Branch(Box<BranchNode>),
}

/// One stash whose base commit could not be resolved, with the reason.
#[derive(Debug, PartialEq, Eq)]
pub struct StashFailure {
    pub record: StashRecord,
    pub error: ResolutionError,
}

/// The complete output of the topology builder: the root branch node, the
/// orphan stashes in enumeration order, and the per-stash failures in
/// enumeration order.
#[derive(Debug, PartialEq, Eq)]
pub struct Topology {
    pub root: BranchNode,
    pub orphans: Vec<ResolvedStash>,
    pub failures: Vec<StashFailure>,
}

/// The sort key of an attributed stash: its base commit's timestamp.
pub open spec fn stash_ts(s: ResolvedStash) -> i64 {
    s.base.timestamp
}

/// Inserts a stash into an already sorted run, after every entry whose
/// timestamp is less than or equal to its own. Inserting after equals is
/// what keeps the sort stable.
pub open spec fn insert_stash_spec(s: Seq<ResolvedStash>, x: ResolvedStash) -> Seq<ResolvedStash>
    decreases s.len(),
{
    if s.len() == 0 {
        seq![x]
    } else if stash_ts(s[0]) <= stash_ts(x) {
        seq![s[0]] + insert_stash_spec(s.drop_first(), x)
    } else {
        seq![x] + s
    }
}

/// Stable insertion sort by base-commit timestamp, ascending.
pub open spec fn sort_stashes_spec(s: Seq<ResolvedStash>) -> Seq<ResolvedStash>
    decreases s.len(),
{
    if s.len() == 0 {
        Seq::empty()
    } else {
        insert_stash_spec(sort_stashes_spec(s.drop_last()), s.last())
    }
}

/// Whether a run of attributed stashes is ordered by timestamp, ascending.
pub open spec fn sorted_by_ts(s: Seq<ResolvedStash>) -> bool {
    forall|i: int, j: int| 0 <= i < j < s.len() ==> stash_ts(s[i]) <= stash_ts(s[j])
}

proof fn lemma_insert_stash_sorted(s: Seq<ResolvedStash>, x: ResolvedStash)
    requires
        sorted_by_ts(s),
    ensures
        sorted_by_ts(insert_stash_spec(s, x)),
        insert_stash_spec(s, x).len() == s.len() + 1,
    decreases s.len(),
{
    if s.len() == 0 {
    } else if stash_ts(s[0]) <= stash_ts(x) {
        assert(sorted_by_ts(s.drop_first()));
        lemma_insert_stash_sorted(s.drop_first(), x);
        let r = seq![s[0]] + insert_stash_spec(s.drop_first(), x);
        let t = insert_stash_spec(s.drop_first(), x);
        assert forall|i: int, j: int| 0 <= i < j < r.len() implies stash_ts(r[i]) <= stash_ts(
            r[j],
        ) by {
            if i == 0 {
                assert(r[j] == t[j - 1]);
                lemma_insert_head_bound(s.drop_first(), x, s[0], j - 1);
            } else {
                assert(r[i] == t[i - 1] && r[j] == t[j - 1]);
            }
        }
    } else {
        let r = seq![x] + s;
        assert forall|i: int, j: int| 0 <= i < j < r.len() implies stash_ts(r[i]) <= stash_ts(
            r[j],
        ) by {
            if i == 0 {
                assert(r[j] == s[j - 1]);
                if j - 1 > 0 {
                    assert(stash_ts(s[0]) <= stash_ts(s[j - 1]));
                }
            } else {
                assert(r[i] == s[i - 1] && r[j] == s[j - 1]);
            }
        }
    }
}

/// Every entry of the inserted run is either the new stash, or bounded
/// below by any lower bound of the run and the new stash.
proof fn lemma_insert_head_bound(s: Seq<ResolvedStash>, x: ResolvedStash, lo: ResolvedStash, k: int)
    requires
        0 <= k < insert_stash_spec(s, x).len(),
        stash_ts(lo) <= stash_ts(x),
        forall|i: int| 0 <= i < s.len() ==> stash_ts(lo) <= stash_ts(#[trigger] s[i]),
    ensures
        stash_ts(lo) <= stash_ts(insert_stash_spec(s, x)[k]),
    decreases s.len(),
{
    if s.len() == 0 {
    } else if stash_ts(s[0]) <= stash_ts(x) {
        if k > 0 {
            assert(forall|i: int|
                0 <= i < s.drop_first().len() ==> stash_ts(lo) <= stash_ts(
                    #[trigger] s.drop_first()[i],
                ));
            lemma_insert_head_bound(s.drop_first(), x, lo, k - 1);
        }
    } else {
        if k > 0 {
            assert(insert_stash_spec(s, x)[k] == s[k - 1]);
        }
    }
}

/// The sorted run holds the same entries: sorting neither loses nor adds.
proof fn lemma_insert_stash_contains(s: Seq<ResolvedStash>, x: ResolvedStash, y: ResolvedStash)
    ensures
        insert_stash_spec(s, x).contains(y) <==> (s.contains(y) || y == x),
    decreases s.len(),
{
    if s.len() == 0 {
        assert(insert_stash_spec(s, x) =~= seq![x]);
        assert(seq![x].contains(y) <==> y == x) by {
            if seq![x].contains(y) {
                let k = choose|k: int| 0 <= k < 1 && seq![x][k] == y;
            }
            assert(seq![x][0] == x);
        }
    } else if stash_ts(s[0]) <= stash_ts(x) {
        lemma_insert_stash_contains(s.drop_first(), x, y);
        let r = seq![s[0]] + insert_stash_spec(s.drop_first(), x);
        assert(seq![s[0]].contains(y) <==> y == s[0]) by {
            if seq![s[0]].contains(y) {
                let k = choose|k: int| 0 <= k < 1 && seq![s[0]][k] == y;
            }
            assert(seq![s[0]][0] == s[0]);
        }
        assert(s.contains(y) <==> (y == s[0] || s.drop_first().contains(y))) by {
            if s.contains(y) {
                let k = choose|k: int| 0 <= k < s.len() && s[k] == y;
                if k > 0 {
                    assert(s.drop_first()[k - 1] == y);
                }
            }
            if s.drop_first().contains(y) {
                let k = choose|k: int| 0 <= k < s.drop_first().len() && s.drop_first()[k] == y;
                assert(s[k + 1] == y);
            }
            assert(s[0] == s[0]);
        }
    } else {
        let r = seq![x] + s;
        assert(r.contains(y) <==> (y == x || s.contains(y))) by {
            if r.contains(y) {
                let k = choose|k: int| 0 <= k < r.len() && r[k] == y;
                if k > 0 {
                    assert(s[k - 1] == y);
                }
            }
            assert(r[0] == x);
            if s.contains(y) {
                let k = choose|k: int| 0 <= k < s.len() && s[k] == y;
                assert(r[k + 1] == y);
            }
        }
    }
}

/// Sorting preserves membership in both directions.
pub proof fn lemma_sort_stashes_contains(s: Seq<ResolvedStash>, y: ResolvedStash)
    ensures
        sort_stashes_spec(s).contains(y) <==> s.contains(y),
        sort_stashes_spec(s).len() == s.len(),
    decreases s.len(),
{
    if s.len() == 0 {
    } else {
        lemma_sort_stashes_contains(s.drop_last(), y);
        lemma_insert_stash_contains(sort_stashes_spec(s.drop_last()), s.last(), y);
        lemma_insert_len(sort_stashes_spec(s.drop_last()), s.last());
        assert(s.contains(y) <==> (s.drop_last().contains(y) || y == s.last())) by {
            if s.contains(y) {
                let k = choose|k: int| 0 <= k < s.len() && s[k] == y;
                if k < s.len() - 1 {
                    assert(s.drop_last()[k] == y);
                }
            }
            if s.drop_last().contains(y) {
                let k = choose|k: int|
                    0 <= k < s.drop_last().len() && s.drop_last()[k] == y;
                assert(s[k] == y);
            }
            assert(s[s.len() - 1] == s.last());
        }
    }
}

proof fn lemma_insert_len(s: Seq<ResolvedStash>, x: ResolvedStash)
    ensures
        insert_stash_spec(s, x).len() == s.len() + 1,
    decreases s.len(),
{
    if s.len() > 0 && stash_ts(s[0]) <= stash_ts(x) {
        lemma_insert_len(s.drop_first(), x);
    }
}

/// Law: the stable sort orders by timestamp.
pub proof fn lemma_sort_stashes_sorted(s: Seq<ResolvedStash>)
    ensures
        sorted_by_ts(sort_stashes_spec(s)),
    decreases s.len(),
{
    if s.len() > 0 {
        lemma_sort_stashes_sorted(s.drop_last());
        lemma_insert_stash_sorted(sort_stashes_spec(s.drop_last()), s.last());
    }
}

/// Inserts a stash into a sorted vector at the position the stable sort
/// prescribes: after every entry with an equal or smaller timestamp.
fn insert_stash(s: &mut Vec<ResolvedStash>, x: ResolvedStash)
    ensures
        final(s)@ == insert_stash_spec(old(s)@, x),
{
    let ghost s0 = s@;
    let n = s.len();
    let mut pos: usize = 0;
    while pos < n && s[pos].base.timestamp <= x.base.timestamp
        invariant
            n == s.len(),
            s@ == s0,
            pos <= n,
            forall|k: int| 0 <= k < pos ==> stash_ts(#[trigger] s@[k]) <= stash_ts(x),
        decreases n - pos,
    {
        pos = pos + 1;
    }
    s.insert(pos, x);
    proof {
        lemma_insert_at_pos(s0, x, pos as int);
        assert(s@ =~= s0.take(pos as int) + seq![x] + s0.skip(pos as int));
    }
}

proof fn lemma_insert_at_pos(s: Seq<ResolvedStash>, x: ResolvedStash, pos: int)
    requires
        0 <= pos <= s.len(),
        forall|k: int| 0 <= k < pos ==> stash_ts(#[trigger] s[k]) <= stash_ts(x),
        pos < s.len() ==> stash_ts(s[pos]) > stash_ts(x),
    ensures
        insert_stash_spec(s, x) == s.take(pos) + seq![x] + s.skip(pos),
    decreases s.len(),
{
    if s.len() == 0 {
        assert(insert_stash_spec(s, x) =~= s.take(pos) + seq![x] + s.skip(pos));
    } else if pos == 0 {
        assert(stash_ts(s[0]) > stash_ts(x));
        assert(insert_stash_spec(s, x) =~= s.take(0) + seq![x] + s.skip(0));
    } else {
        assert(stash_ts(s[0]) <= stash_ts(x));
        assert(forall|k: int|
            0 <= k < pos - 1 ==> stash_ts(#[trigger] s.drop_first()[k]) <= stash_ts(x));
        if pos - 1 < s.drop_first().len() {
            assert(s.drop_first()[pos - 1] == s[pos]);
        }
        lemma_insert_at_pos(s.drop_first(), x, pos - 1);
        assert(seq![s[0]] + (s.drop_first().take(pos - 1) + seq![x] + s.drop_first().skip(pos - 1))
            =~= s.take(pos) + seq![x] + s.skip(pos));
    }
}

/// Sorts attributed stashes by base-commit timestamp, ascending, keeping
/// the original relative order of entries with equal timestamps.
pub fn sort_stashes(v: Vec<ResolvedStash>) -> (r: Vec<ResolvedStash>)
    ensures
        r@ == sort_stashes_spec(v@),
{
    let ghost v0 = v@;
    let mut v = v;
    let mut r: Vec<ResolvedStash> = Vec::new();
    let n = v.len();
    let mut i: usize = 0;
    assert(v0.take(0) =~= Seq::<ResolvedStash>::empty());
    while i < n
        invariant
            n == v0.len(),
            i <= n,
            v@ == v0,
            r@ == sort_stashes_spec(v0.take(i as int)),
        decreases n - i,
    {
        let x = clone_resolved(&v[i]);
        insert_stash(&mut r, x);
        proof {
            assert(v0.take(i + 1).drop_last() =~= v0.take(i as int));
            assert(v0.take(i + 1).last() == v0[i as int]);
        }
        i = i + 1;
    }
    proof {
        assert(v0.take(n as int) =~= v0);
    }
    r
}

/// Clones one stash record, field for field.
fn clone_record(s: &StashRecord) -> (r: StashRecord)
    ensures
        r == *s,
{
    StashRecord { index: s.index, message: s.message.clone(), id: s.id }
}

/// Clones one attributed stash, field for field.
fn clone_resolved(s: &ResolvedStash) -> (r: ResolvedStash)
    ensures
        r == *s,
{
    ResolvedStash { record: clone_record(&s.record), base: s.base }
}

/// Whether this branch owns a stash based at `base`: its tip equals the
/// base commit, or the base commit is an ancestor of its tip.
pub open spec fn owns(g: Seq<CommitInfo>, b: BranchTip, base: u64) -> bool {
    reaches(g, b.tip, base)
}

/// The first branch, in branch order, that owns a stash based at `base`.
/// The branch order is the deterministic order the caller enumerated the
/// branches in; a base commit reachable from several tips goes to whichever
/// branch comes first.
pub open spec fn owner_index(g: Seq<CommitInfo>, branches: Seq<BranchTip>, base: u64) -> Option<
    int,
>
    decreases branches.len(),
{
    if branches.len() == 0 {
        Option::None
    } else if owns(g, branches[0], base) {
        Option::Some(0)
    } else {
        match owner_index(g, branches.drop_first(), base) {
            Option::Some(j) => Option::Some(j + 1),
            Option::None => Option::None,
        }
    }
}

/// Finds the first branch that owns a stash based at `base`.
pub fn owner_of(g: &CommitGraph, branches: &Vec<BranchTip>, base: u64) -> (r: Option<usize>)
    ensures
        match r {
            Option::Some(bi) => owner_index(g.commits@, branches@, base) == Option::Some(bi as int),
            Option::None => owner_index(g.commits@, branches@, base) is None,
        },
{
    let n = branches.len();
    let mut i: usize = 0;
    assert(branches@.skip(0) =~= branches@);
    while i < n
        invariant
            n == branches.len(),
            i <= n,
            owner_index(g.commits@, branches@, base) == (match owner_index(
                g.commits@,
                branches@.skip(i as int),
                base,
            ) {
                Option::Some(j) => Option::Some(j + i),
                Option::None => Option::None,
            }),
        decreases n - i,
    {
        if is_ancestor(g, base, branches[i].tip) {
            assert(branches@.skip(i as int)[0] == branches@[i as int]);
            assert(owner_index(g.commits@, branches@.skip(i as int), base) == Option::Some(0int));
            return Option::Some(i);
        }
        proof {
            assert(branches@.skip(i as int)[0] == branches@[i as int]);
            assert(branches@.skip(i as int).drop_first() =~= branches@.skip(i + 1));
        }
        i = i + 1;
    }
    proof {
        assert(branches@.skip(n as int) =~= Seq::<BranchTip>::empty());
    }
    Option::None
}

/// The stashes whose base commit does not resolve, with their errors, in
/// enumeration order.
pub open spec fn failures_spec(g: Seq<CommitInfo>, stashes: Seq<StashRecord>) -> Seq<StashFailure>
    decreases stashes.len(),
{
    if stashes.len() == 0 {
        Seq::empty()
    } else {
        let pre = failures_spec(g, stashes.drop_last());
        match resolve_base_spec(g, stashes.last().id) {
            Result::Err(e) => pre.push(StashFailure { record: stashes.last(), error: e }),
            Result::Ok(_) => pre,
        }
    }
}

/// The stashes that resolve but are owned by no branch, in enumeration
/// order.
pub open spec fn orphans_spec(
    g: Seq<CommitInfo>,
    branches: Seq<BranchTip>,
    stashes: Seq<StashRecord>,
) -> Seq<ResolvedStash>
    decreases stashes.len(),
{
    if stashes.len() == 0 {
        Seq::empty()
    } else {
        let pre = orphans_spec(g, branches, stashes.drop_last());
        match resolve_base_spec(g, stashes.last().id) {
            Result::Ok(b) => {
                if owner_index(g, branches, b.id) is None {
                    pre.push(ResolvedStash { record: stashes.last(), base: b })
                } else {
                    pre
                }
            },
            Result::Err(_) => pre,
        }
    }
}

/// The stashes owned by the branch at index `bi`, in enumeration order,
/// before sorting.
pub open spec fn group_spec(
    g: Seq<CommitInfo>,
    branches: Seq<BranchTip>,
    stashes: Seq<StashRecord>,
    bi: int,
) -> Seq<ResolvedStash>
    decreases stashes.len(),
{
    if stashes.len() == 0 {
        Seq::empty()
    } else {
        let pre = group_spec(g, branches, stashes.drop_last(), bi);
        match resolve_base_spec(g, stashes.last().id) {
            Result::Ok(b) => {
                if owner_index(g, branches, b.id) == Option::Some(bi) {
                    pre.push(ResolvedStash { record: stashes.last(), base: b })
                } else {
                    pre
                }
            },
            Result::Err(_) => pre,
        }
    }
}

/// Collects the per-stash resolution failures, in enumeration order.
fn collect_failures(g: &CommitGraph, stashes: &Vec<StashRecord>) -> (r: Vec<StashFailure>)
    ensures
        r@ == failures_spec(g.commits@, stashes@),
{
    let mut r: Vec<StashFailure> = Vec::new();
    let n = stashes.len();
    let mut i: usize = 0;
    assert(stashes@.take(0) =~= Seq::<StashRecord>::empty());
    while i < n
        invariant
            n == stashes.len(),
            i <= n,
            r@ == failures_spec(g.commits@, stashes@.take(i as int)),
        decreases n - i,
    {
        proof {
            assert(stashes@.take(i + 1).drop_last() =~= stashes@.take(i as int));
            assert(stashes@.take(i + 1).last() == stashes@[i as int]);
        }
        match resolve_base(g, stashes[i].id) {
            Result::Err(e) => {
                r.push(StashFailure { record: clone_record(&stashes[i]), error: e });
            },
            Result::Ok(_) => {},
        }
        i = i + 1;
    }
    proof {
        assert(stashes@.take(n as int) =~= stashes@);
    }
    r
}

/// Collects the orphan stashes, in enumeration order.
fn collect_orphans(g: &CommitGraph, branches: &Vec<BranchTip>, stashes: &Vec<StashRecord>) -> (r:
    Vec<ResolvedStash>)
    ensures
        r@ == orphans_spec(g.commits@, branches@, stashes@),
{
    let mut r: Vec<ResolvedStash> = Vec::new();
    let n = stashes.len();
    let mut i: usize = 0;
    assert(stashes@.take(0) =~= Seq::<StashRecord>::empty());
    while i < n
        invariant
            n == stashes.len(),
            i <= n,
            r@ == orphans_spec(g.commits@, branches@, stashes@.take(i as int)),
        decreases n - i,
    {
        proof {
            assert(stashes@.take(i + 1).drop_last() =~= stashes@.take(i as int));
            assert(stashes@.take(i + 1).last() == stashes@[i as int]);
        }
        match resolve_base(g, stashes[i].id) {
            Result::Ok(b) => {
                match owner_of(g, branches, b.id) {
                    Option::None => {
                        r.push(ResolvedStash { record: clone_record(&stashes[i]), base: b });
                    },
                    Option::Some(_) => {},
                }
            },
            Result::Err(_) => {},
        }
        i = i + 1;
    }
    proof {
        assert(stashes@.take(n as int) =~= stashes@);
    }
    r
}

/// Collects the stashes owned by the branch at index `bi`, in enumeration
/// order.
fn collect_group(
    g: &CommitGraph,
    branches: &Vec<BranchTip>,
    stashes: &Vec<StashRecord>,
    bi: usize,
) -> (r: Vec<ResolvedStash>)
    ensures
        r@ == group_spec(g.commits@, branches@, stashes@, bi as int),
{
    let mut r: Vec<ResolvedStash> = Vec::new();
    let n = stashes.len();
    let mut i: usize = 0;
    assert(stashes@.take(0) =~= Seq::<StashRecord>::empty());
    while i < n
        invariant
            n == stashes.len(),
            i <= n,
            r@ == group_spec(g.commits@, branches@, stashes@.take(i as int), bi as int),
        decreases n - i,
    {
        proof {
            assert(stashes@.take(i + 1).drop_last() =~= stashes@.take(i as int));
            assert(stashes@.take(i + 1).last() == stashes@[i as int]);
        }
        match resolve_base(g, stashes[i].id) {
            Result::Ok(b) => {
                match owner_of(g, branches, b.id) {
                    Option::Some(j) => {
                        if j == bi {
                            r.push(ResolvedStash { record: clone_record(&stashes[i]), base: b });
                        }
                    },
                    Option::None => {},
                }
            },
            Result::Err(_) => {},
        }
        i = i + 1;
    }
    proof {
        assert(stashes@.take(n as int) =~= stashes@);
    }
    r
}

/// The predicate selecting attributed stashes with one given timestamp.
pub open spec fn has_ts(t: i64) -> spec_fn(ResolvedStash) -> bool {
    |y: ResolvedStash| stash_ts(y) == t
}

proof fn lemma_filter_none(s: Seq<ResolvedStash>, t: i64)
    requires
        forall|i: int| 0 <= i < s.len() ==> stash_ts(#[trigger] s[i]) != t,
    ensures
        s.filter(has_ts(t)) == Seq::<ResolvedStash>::empty(),
    decreases s.len(),
{
    reveal(Seq::filter);
    if s.len() > 0 {
        assert(forall|i: int|
            0 <= i < s.drop_last().len() ==> stash_ts(#[trigger] s.drop_last()[i]) != t);
        lemma_filter_none(s.drop_last(), t);
        assert(!has_ts(t)(s.last()));
    }
}

proof fn lemma_insert_filter(s: Seq<ResolvedStash>, x: ResolvedStash, t: i64)
    requires
        sorted_by_ts(s),
    ensures
        insert_stash_spec(s, x).filter(has_ts(t)) == (if stash_ts(x) == t {
            s.filter(has_ts(t)).push(x)
        } else {
            s.filter(has_ts(t))
        }),
    decreases s.len(),
{
    let p = has_ts(t);
    reveal(Seq::filter);
    if s.len() == 0 {
        assert(seq![x] =~= Seq::<ResolvedStash>::empty().push(x));
        Seq::<ResolvedStash>::empty().lemma_filter_push(x, p);
    } else if stash_ts(s[0]) <= stash_ts(x) {
        assert(sorted_by_ts(s.drop_first()));
        lemma_insert_filter(s.drop_first(), x, t);
        let head = seq![s[0]];
        let rest = s.drop_first();
        Seq::filter_distributes_over_add(head, insert_stash_spec(rest, x), p);
        Seq::filter_distributes_over_add(head, rest, p);
        assert(head + rest =~= s);
        if stash_ts(x) == t {
            assert((head.filter(p) + rest.filter(p).push(x)) =~= (head.filter(p) + rest.filter(
                p,
            )).push(x));
        }
    } else {
        let single = seq![x];
        Seq::filter_distributes_over_add(single, s, p);
        assert(single.drop_last() =~= Seq::<ResolvedStash>::empty());
        if stash_ts(x) == t {
            assert(forall|i: int| 0 <= i < s.len() ==> stash_ts(#[trigger] s[i]) != t) by {
                assert forall|i: int| 0 <= i < s.len() implies stash_ts(#[trigger] s[i]) != t by {
                    if i > 0 {
                        assert(stash_ts(s[0]) <= stash_ts(s[i]));
                    }
                }
            }
            lemma_filter_none(s, t);
            assert(single.filter(p) =~= Seq::<ResolvedStash>::empty().push(x));
            assert((single.filter(p) + s.filter(p)) =~= s.filter(p).push(x));
        } else {
            assert(Seq::<ResolvedStash>::empty().filter(p) =~= Seq::<ResolvedStash>::empty());
            assert(single.filter(p) =~= Seq::<ResolvedStash>::empty());
            assert((single.filter(p) + s.filter(p)) =~= s.filter(p));
        }
    }
}

/// Law: stable ordering. For every timestamp, the subsequence of stashes
/// carrying that timestamp is exactly the same before and after sorting:
/// stashes with identical base-commit timestamps keep their original
/// relative enumeration order.
pub proof fn lemma_sort_stashes_stable(s: Seq<ResolvedStash>, t: i64)
    ensures
        sort_stashes_spec(s).filter(has_ts(t)) == s.filter(has_ts(t)),
    decreases s.len(),
{
    reveal(Seq::filter);
    if s.len() > 0 {
        lemma_sort_stashes_stable(s.drop_last(), t);
        lemma_sort_stashes_sorted(s.drop_last());
        lemma_insert_filter(sort_stashes_spec(s.drop_last()), s.last(), t);
    }
}

/// Law: orphan completeness, completeness half. Every enumerated stash
/// lands in the bucket its resolution and attribution prescribe: the
/// failure list when its base does not resolve, the orphan list when no
/// branch owns it, and its owning branch's group otherwise.
pub proof fn lemma_stash_partition(
    g: Seq<CommitInfo>,
    branches: Seq<BranchTip>,
    stashes: Seq<StashRecord>,
    i: int,
)
    requires
        0 <= i < stashes.len(),
    ensures
        match resolve_base_spec(g, stashes[i].id) {
            Result::Err(e) => failures_spec(g, stashes).contains(
                StashFailure { record: stashes[i], error: e },
            ),
            Result::Ok(b) => match owner_index(g, branches, b.id) {
                Option::None => orphans_spec(g, branches, stashes).contains(
                    ResolvedStash { record: stashes[i], base: b },
                ),
                Option::Some(bi) => group_spec(g, branches, stashes, bi).contains(
                    ResolvedStash { record: stashes[i], base: b },
                ),
            },
        },
    decreases stashes.len(),
{
    if i == stashes.len() - 1 {
        assert(stashes.last() == stashes[i]);
    } else {
        lemma_stash_partition(g, branches, stashes.drop_last(), i);
        assert(stashes.drop_last()[i] == stashes[i]);
    }
}

/// Law: orphan completeness, exclusivity half. An entry of the orphan list
/// is a stash that resolved and that no branch owns; an entry of a branch
/// group is a stash that resolved and whose first owning branch is exactly
/// that branch; an entry of the failure list is a stash whose base does not
/// resolve, with the very error. So no stash value can stand in two
/// buckets, and a grouped stash stands in only one group.
pub proof fn lemma_bucket_characterization(
    g: Seq<CommitInfo>,
    branches: Seq<BranchTip>,
    stashes: Seq<StashRecord>,
)
    ensures
        forall|x: ResolvedStash|
            orphans_spec(g, branches, stashes).contains(x) ==> resolve_base_spec(g, x.record.id)
                == Result::<BaseCommit, ResolutionError>::Ok(x.base) && owner_index(
                g,
                branches,
                x.base.id,
            ) is None,
        forall|bi: int, x: ResolvedStash|
            #[trigger] group_spec(g, branches, stashes, bi).contains(x) ==> resolve_base_spec(
                g,
                x.record.id,
            ) == Result::<BaseCommit, ResolutionError>::Ok(x.base) && owner_index(
                g,
                branches,
                x.base.id,
            ) == Option::Some(bi),
        forall|f: StashFailure|
            failures_spec(g, stashes).contains(f) ==> resolve_base_spec(g, f.record.id)
                == Result::<BaseCommit, ResolutionError>::Err(f.error),
    decreases stashes.len(),
{
    if stashes.len() > 0 {
        lemma_bucket_characterization(g, branches, stashes.drop_last());
        let s = stashes.last();
        assert forall|x: ResolvedStash|
            orphans_spec(g, branches, stashes).contains(x) implies resolve_base_spec(
            g,
            x.record.id,
        ) == Result::<BaseCommit, ResolutionError>::Ok(x.base) && owner_index(
            g,
            branches,
            x.base.id,
        ) is None by {
            let pre = orphans_spec(g, branches, stashes.drop_last());
            if !pre.contains(x) {
                match resolve_base_spec(g, s.id) {
                    Result::Ok(b) => {},
                    Result::Err(_) => {},
                }
            }
        }
        assert forall|bi: int, x: ResolvedStash|
            #[trigger] group_spec(g, branches, stashes, bi).contains(x) implies resolve_base_spec(
            g,
            x.record.id,
        ) == Result::<BaseCommit, ResolutionError>::Ok(x.base) && owner_index(
            g,
            branches,
            x.base.id,
        ) == Option::Some(bi) by {
            let pre = group_spec(g, branches, stashes.drop_last(), bi);
            if !pre.contains(x) {
                match resolve_base_spec(g, s.id) {
                    Result::Ok(b) => {},
                    Result::Err(_) => {},
                }
            }
        }
        assert forall|f: StashFailure|
            failures_spec(g, stashes).contains(f) implies resolve_base_spec(g, f.record.id)
            == Result::<BaseCommit, ResolutionError>::Err(f.error) by {
            let pre = failures_spec(g, stashes.drop_last());
            if !pre.contains(f) {
                match resolve_base_spec(g, s.id) {
                    Result::Ok(_) => {},
                    Result::Err(e) => {},
                }
            }
        }
    }
}

/// The sort key of a root-level reference: a stash's own base timestamp; a
/// nested branch's derived timestamp, which is the timestamp of the first
/// reference in its (already sorted) list, or the node's own fallback
/// timestamp if it has none.
pub open spec fn ref_key(rf: GitRef) -> i64 {
    match rf {
        GitRef::Stash(s) => s.base.timestamp,
        GitRef::Branch(b) => {
            if b.refs@.len() == 0 {
                b.timestamp
            } else {
                match b.refs@[0] {
                    GitRef::Stash(s) => s.base.timestamp,
                    GitRef::Branch(bb) => bb.timestamp,
                }
            }
        },
    }
}

/// Abstract description of one root-level reference: a directly owned
/// stash, or the nested node of the branch at this index.
pub enum RootEntry {
    Stash(ResolvedStash),
    Child(int),
}

/// The sort key that `ref_key` takes on a reference described by this
/// entry.
pub open spec fn entry_key(
    g: Seq<CommitInfo>,
    branches: Seq<BranchTip>,
    stashes: Seq<StashRecord>,
    e: RootEntry,
) -> i64 {
    match e {
        RootEntry::Stash(x) => stash_ts(x),
        RootEntry::Child(bi) => {
            let grp = sort_stashes_spec(group_spec(g, branches, stashes, bi));
            if grp.len() == 0 {
                0
            } else {
                stash_ts(grp[0])
            }
        },
    }
}

/// The references standing for a run of attributed stashes.
pub open spec fn stash_refs(s: Seq<ResolvedStash>) -> Seq<GitRef> {
    s.map_values(|x: ResolvedStash| GitRef::Stash(x))
}

/// Whether a built reference is the one an abstract entry describes: the
/// very stash, or a node carrying the branch's name, the epoch fallback
/// timestamp, and exactly the branch's sorted stashes.
pub open spec fn matches_entry(
    g: Seq<CommitInfo>,
    branches: Seq<BranchTip>,
    stashes: Seq<StashRecord>,
    rf: GitRef,
    e: RootEntry,
) -> bool {
    match e {
        RootEntry::Stash(x) => rf == GitRef::Stash(x),
        RootEntry::Child(bi) => match rf {
            GitRef::Branch(b) => {
                &&& b.name == branches[bi].name
                &&& b.timestamp == 0
                &&& b.refs@ == stash_refs(
                    sort_stashes_spec(group_spec(g, branches, stashes, bi)),
                )
            },
            GitRef::Stash(_) => false,
        },
    }
}

proof fn lemma_matches_entry_key(
    g: Seq<CommitInfo>,
    branches: Seq<BranchTip>,
    stashes: Seq<StashRecord>,
    rf: GitRef,
    e: RootEntry,
)
    requires
        matches_entry(g, branches, stashes, rf, e),
    ensures
        ref_key(rf) == entry_key(g, branches, stashes, e),
{
    match e {
        RootEntry::Stash(x) => {},
        RootEntry::Child(bi) => {
            let grp = sort_stashes_spec(group_spec(g, branches, stashes, bi));
            if grp.len() > 0 {
                assert(stash_refs(grp)[0] == GitRef::Stash(grp[0]));
            }
        },
    }
}

/// The first branch with this name, if any.
pub open spec fn name_index(branches: Seq<BranchTip>, name: Seq<char>) -> Option<int>
    decreases branches.len(),
{
    if branches.len() == 0 {
        Option::None
    } else if branches[0].name@ == name {
        Option::Some(0)
    } else {
        match name_index(branches.drop_first(), name) {
            Option::Some(j) => Option::Some(j + 1),
            Option::None => Option::None,
        }
    }
}

/// Whether all branch names differ, as local branch names do.
pub open spec fn distinct_branch_names(branches: Seq<BranchTip>) -> bool {
    forall|i: int, j: int|
        0 <= i < j < branches.len() ==> #[trigger] branches[i].name@ != #[trigger] branches[
            j
        ].name@
}

/// The root's directly owned references before the final ordering: the
/// sorted stashes of the branch carrying the root name, if there is one.
pub open spec fn root_stash_entries(
    g: Seq<CommitInfo>,
    branches: Seq<BranchTip>,
    stashes: Seq<StashRecord>,
    root_name: Seq<char>,
) -> Seq<RootEntry> {
    match name_index(branches, root_name) {
        Option::Some(ri) => sort_stashes_spec(group_spec(g, branches, stashes, ri)).map_values(
            |x: ResolvedStash| RootEntry::Stash(x),
        ),
        Option::None => Seq::empty(),
    }
}

/// One child entry per branch among the first `k` that does not carry the
/// root name and owns at least one stash, in branch order.
pub open spec fn child_entries(
    g: Seq<CommitInfo>,
    branches: Seq<BranchTip>,
    stashes: Seq<StashRecord>,
    root_name: Seq<char>,
    k: int,
) -> Seq<RootEntry>
    decreases k,
{
    if k <= 0 {
        Seq::empty()
    } else {
        let pre = child_entries(g, branches, stashes, root_name, k - 1);
        if branches[k - 1].name@ != root_name && group_spec(g, branches, stashes, k - 1).len()
            > 0 {
            pre.push(RootEntry::Child(k - 1))
        } else {
            pre
        }
    }
}

/// The root's references before the final ordering: its own stashes, then
/// the child nodes in branch order.
pub open spec fn root_entries(
    g: Seq<CommitInfo>,
    branches: Seq<BranchTip>,
    stashes: Seq<StashRecord>,
    root_name: Seq<char>,
) -> Seq<RootEntry> {
    root_stash_entries(g, branches, stashes, root_name) + child_entries(
        g,
        branches,
        stashes,
        root_name,
        branches.len() as int,
    )
}

/// Inserts an entry into an already sorted run of entries, after every
/// entry with an equal or smaller key.
pub open spec fn insert_entry_spec(
    g: Seq<CommitInfo>,
    branches: Seq<BranchTip>,
    stashes: Seq<StashRecord>,
    s: Seq<RootEntry>,
    e: RootEntry,
) -> Seq<RootEntry>
    decreases s.len(),
{
    if s.len() == 0 {
        seq![e]
    } else if entry_key(g, branches, stashes, s[0]) <= entry_key(g, branches, stashes, e) {
        seq![s[0]] + insert_entry_spec(g, branches, stashes, s.drop_first(), e)
    } else {
        seq![e] + s
    }
}

/// Stable insertion sort of root entries by derived timestamp, ascending.
pub open spec fn sort_entries_spec(
    g: Seq<CommitInfo>,
    branches: Seq<BranchTip>,
    stashes: Seq<StashRecord>,
    s: Seq<RootEntry>,
) -> Seq<RootEntry>
    decreases s.len(),
{
    if s.len() == 0 {
        Seq::empty()
    } else {
        insert_entry_spec(
            g,
            branches,
            stashes,
            sort_entries_spec(g, branches, stashes, s.drop_last()),
            s.last(),
        )
    }
}

proof fn lemma_insert_entry_contains(
    g: Seq<CommitInfo>,
    branches: Seq<BranchTip>,
    stashes: Seq<StashRecord>,
    s: Seq<RootEntry>,
    e: RootEntry,
    y: RootEntry,
)
    ensures
        insert_entry_spec(g, branches, stashes, s, e).contains(y) <==> (s.contains(y) || y == e),
    decreases s.len(),
{
    if s.len() == 0 {
        assert(insert_entry_spec(g, branches, stashes, s, e) =~= seq![e]);
        assert(seq![e][0] == e);
        if seq![e].contains(y) {
            let k = choose|k: int| 0 <= k < 1 && seq![e][k] == y;
        }
    } else if entry_key(g, branches, stashes, s[0]) <= entry_key(g, branches, stashes, e) {
        lemma_insert_entry_contains(g, branches, stashes, s.drop_first(), e, y);
        assert(seq![s[0]].contains(y) <==> y == s[0]) by {
            if seq![s[0]].contains(y) {
                let k = choose|k: int| 0 <= k < 1 && seq![s[0]][k] == y;
            }
            assert(seq![s[0]][0] == s[0]);
        }
        assert(s.contains(y) <==> (y == s[0] || s.drop_first().contains(y))) by {
            if s.contains(y) {
                let k = choose|k: int| 0 <= k < s.len() && s[k] == y;
                if k > 0 {
                    assert(s.drop_first()[k - 1] == y);
                }
            }
            if s.drop_first().contains(y) {
                let k = choose|k: int| 0 <= k < s.drop_first().len() && s.drop_first()[k] == y;
                assert(s[k + 1] == y);
            }
            assert(s[0] == s[0]);
        }
    } else {
        let r = seq![e] + s;
        assert(r.contains(y) <==> (y == e || s.contains(y))) by {
            if r.contains(y) {
                let k = choose|k: int| 0 <= k < r.len() && r[k] == y;
                if k > 0 {
                    assert(s[k - 1] == y);
                }
            }
            assert(r[0] == e);
            if s.contains(y) {
                let k = choose|k: int| 0 <= k < s.len() && s[k] == y;
                assert(r[k + 1] == y);
            }
        }
    }
}

proof fn lemma_sort_entries_contains(
    g: Seq<CommitInfo>,
    branches: Seq<BranchTip>,
    stashes: Seq<StashRecord>,
    s: Seq<RootEntry>,
    y: RootEntry,
)
    ensures
        sort_entries_spec(g, branches, stashes, s).contains(y) <==> s.contains(y),
    decreases s.len(),
{
    if s.len() > 0 {
        lemma_sort_entries_contains(g, branches, stashes, s.drop_last(), y);
        lemma_insert_entry_contains(
            g,
            branches,
            stashes,
            sort_entries_spec(g, branches, stashes, s.drop_last()),
            s.last(),
            y,
        );
        assert(s.contains(y) <==> (s.drop_last().contains(y) || y == s.last())) by {
            if s.contains(y) {
                let k = choose|k: int| 0 <= k < s.len() && s[k] == y;
                if k < s.len() - 1 {
                    assert(s.drop_last()[k] == y);
                }
            }
            if s.drop_last().contains(y) {
                let k = choose|k: int| 0 <= k < s.drop_last().len() && s.drop_last()[k] == y;
                assert(s[k] == y);
            }
            assert(s[s.len() - 1] == s.last());
        }
    }
}

/// Whether a run of root entries is ordered by derived timestamp,
/// ascending.
pub open spec fn entries_sorted_by_key(
    g: Seq<CommitInfo>,
    branches: Seq<BranchTip>,
    stashes: Seq<StashRecord>,
    s: Seq<RootEntry>,
) -> bool {
    forall|i: int, j: int|
        0 <= i < j < s.len() ==> entry_key(g, branches, stashes, #[trigger] s[i]) <= entry_key(
            g,
            branches,
            stashes,
            #[trigger] s[j],
        )
}

proof fn lemma_insert_entry_key_bound(
    g: Seq<CommitInfo>,
    branches: Seq<BranchTip>,
    stashes: Seq<StashRecord>,
    s: Seq<RootEntry>,
    e: RootEntry,
    lo: RootEntry,
    k: int,
)
    requires
        0 <= k < insert_entry_spec(g, branches, stashes, s, e).len(),
        entry_key(g, branches, stashes, lo) <= entry_key(g, branches, stashes, e),
        forall|i: int|
            0 <= i < s.len() ==> entry_key(g, branches, stashes, lo) <= entry_key(
                g,
                branches,
                stashes,
                #[trigger] s[i],
            ),
    ensures
        entry_key(g, branches, stashes, lo) <= entry_key(
            g,
            branches,
            stashes,
            insert_entry_spec(g, branches, stashes, s, e)[k],
        ),
    decreases s.len(),
{
    if s.len() == 0 {
    } else if entry_key(g, branches, stashes, s[0]) <= entry_key(g, branches, stashes, e) {
        if k > 0 {
            assert(forall|i: int|
                0 <= i < s.drop_first().len() ==> entry_key(g, branches, stashes, lo) <= entry_key(
                    g,
                    branches,
                    stashes,
                    #[trigger] s.drop_first()[i],
                ));
            lemma_insert_entry_key_bound(g, branches, stashes, s.drop_first(), e, lo, k - 1);
        }
    } else {
        if k > 0 {
            assert(insert_entry_spec(g, branches, stashes, s, e)[k] == s[k - 1]);
        }
    }
}

proof fn lemma_insert_entry_sorted(
    g: Seq<CommitInfo>,
    branches: Seq<BranchTip>,
    stashes: Seq<StashRecord>,
    s: Seq<RootEntry>,
    e: RootEntry,
)
    requires
        entries_sorted_by_key(g, branches, stashes, s),
    ensures
        entries_sorted_by_key(g, branches, stashes, insert_entry_spec(g, branches, stashes, s, e)),
    decreases s.len(),
{
    if s.len() == 0 {
    } else if entry_key(g, branches, stashes, s[0]) <= entry_key(g, branches, stashes, e) {
        assert(entries_sorted_by_key(g, branches, stashes, s.drop_first()));
        lemma_insert_entry_sorted(g, branches, stashes, s.drop_first(), e);
        let t = insert_entry_spec(g, branches, stashes, s.drop_first(), e);
        let r = seq![s[0]] + t;
        assert forall|i: int, j: int| 0 <= i < j < r.len() implies entry_key(
            g,
            branches,
            stashes,
            r[i],
        ) <= entry_key(g, branches, stashes, r[j]) by {
            if i == 0 {
                assert(r[j] == t[j - 1]);
                lemma_insert_entry_key_bound(
                    g,
                    branches,
                    stashes,
                    s.drop_first(),
                    e,
                    s[0],
                    j - 1,
                );
            } else {
                assert(r[i] == t[i - 1] && r[j] == t[j - 1]);
            }
        }
    } else {
        let r = seq![e] + s;
        assert forall|i: int, j: int| 0 <= i < j < r.len() implies entry_key(
            g,
            branches,
            stashes,
            r[i],
        ) <= entry_key(g, branches, stashes, r[j]) by {
            if i == 0 {
                assert(r[j] == s[j - 1]);
                if j - 1 > 0 {
                    assert(entry_key(g, branches, stashes, s[0]) <= entry_key(
                        g,
                        branches,
                        stashes,
                        s[j - 1],
                    ));
                }
            } else {
                assert(r[i] == s[i - 1] && r[j] == s[j - 1]);
            }
        }
    }
}

/// Law: the root's references sort by derived timestamp.
pub proof fn lemma_sort_entries_sorted(
    g: Seq<CommitInfo>,
    branches: Seq<BranchTip>,
    stashes: Seq<StashRecord>,
    s: Seq<RootEntry>,
)
    ensures
        entries_sorted_by_key(g, branches, stashes, sort_entries_spec(g, branches, stashes, s)),
    decreases s.len(),
{
    if s.len() > 0 {
        lemma_sort_entries_sorted(g, branches, stashes, s.drop_last());
        lemma_insert_entry_sorted(
            g,
            branches,
            stashes,
            sort_entries_spec(g, branches, stashes, s.drop_last()),
            s.last(),
        );
    }
}

/// Whether a run of built references is ordered by derived timestamp,
/// ascending.
pub open spec fn refs_sorted_by_key(refs: Seq<GitRef>) -> bool {
    forall|i: int, j: int|
        0 <= i < j < refs.len() ==> ref_key(#[trigger] refs[i]) <= ref_key(#[trigger] refs[j])
}

/// Law: in a topology built by `build_topology` (the requires restate its
/// contract), the root's references stand in ascending order of derived
/// timestamp: a stash by its base timestamp, a nested node by its first
/// stash's timestamp.
pub proof fn lemma_root_refs_sorted(
    g: Seq<CommitInfo>,
    branches: Seq<BranchTip>,
    stashes: Seq<StashRecord>,
    root_name: Seq<char>,
    topo: Topology,
)
    requires
        topo.root.refs@.len() == sort_entries_spec(
            g,
            branches,
            stashes,
            root_entries(g, branches, stashes, root_name),
        ).len(),
        forall|k: int|
            0 <= k < topo.root.refs@.len() ==> matches_entry(
                g,
                branches,
                stashes,
                #[trigger] topo.root.refs@[k],
                sort_entries_spec(
                    g,
                    branches,
                    stashes,
                    root_entries(g, branches, stashes, root_name),
                )[k],
            ),
    ensures
        refs_sorted_by_key(topo.root.refs@),
{
    let entries = root_entries(g, branches, stashes, root_name);
    let sorted = sort_entries_spec(g, branches, stashes, entries);
    lemma_sort_entries_sorted(g, branches, stashes, entries);
    assert forall|i: int, j: int| 0 <= i < j < topo.root.refs@.len() implies ref_key(
        #[trigger] topo.root.refs@[i],
    ) <= ref_key(#[trigger] topo.root.refs@[j]) by {
        lemma_matches_entry_key(g, branches, stashes, topo.root.refs@[i], sorted[i]);
        lemma_matches_entry_key(g, branches, stashes, topo.root.refs@[j], sorted[j]);
    }
}

proof fn lemma_insert_entry_at_pos(
    g: Seq<CommitInfo>,
    branches: Seq<BranchTip>,
    stashes: Seq<StashRecord>,
    s: Seq<RootEntry>,
    e: RootEntry,
    pos: int,
)
    requires
        0 <= pos <= s.len(),
        forall|k: int|
            0 <= k < pos ==> entry_key(g, branches, stashes, #[trigger] s[k]) <= entry_key(
                g,
                branches,
                stashes,
                e,
            ),
        pos < s.len() ==> entry_key(g, branches, stashes, s[pos]) > entry_key(
            g,
            branches,
            stashes,
            e,
        ),
    ensures
        insert_entry_spec(g, branches, stashes, s, e) == s.take(pos) + seq![e] + s.skip(pos),
    decreases s.len(),
{
    if s.len() == 0 {
        assert(insert_entry_spec(g, branches, stashes, s, e) =~= s.take(pos) + seq![e] + s.skip(
            pos,
        ));
    } else if pos == 0 {
        assert(insert_entry_spec(g, branches, stashes, s, e) =~= s.take(0) + seq![e] + s.skip(0));
    } else {
        assert(forall|k: int|
            0 <= k < pos - 1 ==> entry_key(g, branches, stashes, #[trigger] s.drop_first()[k])
                <= entry_key(g, branches, stashes, e));
        if pos - 1 < s.drop_first().len() {
            assert(s.drop_first()[pos - 1] == s[pos]);
        }
        lemma_insert_entry_at_pos(g, branches, stashes, s.drop_first(), e, pos - 1);
        assert(seq![s[0]] + (s.drop_first().take(pos - 1) + seq![e] + s.drop_first().skip(pos - 1))
            =~= s.take(pos) + seq![e] + s.skip(pos));
    }
}

/// Whether one root-level reference holds this stash: it is the stash
/// itself, or a nested node listing it.
pub open spec fn ref_holds_stash(rf: GitRef, x: ResolvedStash) -> bool {
    match rf {
        GitRef::Stash(y) => y == x,
        GitRef::Branch(b) => exists|j: int|
            0 <= j < b.refs@.len() && b.refs@[j] == GitRef::Stash(x),
    }
}

/// Whether the root node holds this stash, directly or inside one of its
/// nested branch nodes.
pub open spec fn topology_holds_stash(root: BranchNode, x: ResolvedStash) -> bool {
    exists|k: int| 0 <= k < root.refs@.len() && ref_holds_stash(#[trigger] root.refs@[k], x)
}

/// With all branch names distinct, the branch at `bi` is the one its name
/// finds.
proof fn lemma_name_index_of_distinct(branches: Seq<BranchTip>, bi: int)
    requires
        distinct_branch_names(branches),
        0 <= bi < branches.len(),
    ensures
        name_index(branches, branches[bi].name@) == Option::Some(bi),
    decreases branches.len(),
{
    let nm = branches[bi].name@;
    if branches[0].name@ == nm {
        assert(bi == 0) by {
            if bi > 0 {
                assert(branches[0].name@ != branches[bi].name@);
            }
        }
    } else {
        assert(bi > 0);
        assert(distinct_branch_names(branches.drop_first())) by {
            assert forall|i: int, j: int|
                0 <= i < j < branches.drop_first().len() implies #[trigger] branches.drop_first()[
                i
            ].name@ != #[trigger] branches.drop_first()[j].name@ by {
                assert(branches.drop_first()[i] == branches[i + 1]);
                assert(branches.drop_first()[j] == branches[j + 1]);
            }
        }
        assert(branches.drop_first()[bi - 1] == branches[bi]);
        lemma_name_index_of_distinct(branches.drop_first(), bi - 1);
    }
}

/// A branch that owns a stash, is not the root, and comes before `k` has
/// its child entry among the first `k` child entries.
proof fn lemma_child_entry_present(
    g: Seq<CommitInfo>,
    branches: Seq<BranchTip>,
    stashes: Seq<StashRecord>,
    root_name: Seq<char>,
    bi: int,
    k: int,
)
    requires
        0 <= bi < k <= branches.len(),
        branches[bi].name@ != root_name,
        group_spec(g, branches, stashes, bi).len() > 0,
    ensures
        child_entries(g, branches, stashes, root_name, k).contains(RootEntry::Child(bi)),
    decreases k,
{
    let pre = child_entries(g, branches, stashes, root_name, k - 1);
    if bi == k - 1 {
        assert(pre.push(RootEntry::Child(bi)).last() == RootEntry::Child(bi));
    } else {
        lemma_child_entry_present(g, branches, stashes, root_name, bi, k - 1);
    }
}

/// Law: no stash silently vanishes. For a topology built by
/// `build_topology` (the requires restate its contract), every enumerated
/// stash shows up in the very place its resolution and attribution
/// prescribe: in the failure list with its error when its base does not
/// resolve, in the orphan list when no branch owns it, and inside the root
/// node (directly or in a nested branch node) when one does.
pub proof fn lemma_no_stash_vanishes(
    g: Seq<CommitInfo>,
    branches: Seq<BranchTip>,
    stashes: Seq<StashRecord>,
    root_name: Seq<char>,
    topo: Topology,
    i: int,
)
    requires
        distinct_branch_names(branches),
        0 <= i < stashes.len(),
        topo.failures@ == failures_spec(g, stashes),
        topo.orphans@ == orphans_spec(g, branches, stashes),
        topo.root.refs@.len() == sort_entries_spec(
            g,
            branches,
            stashes,
            root_entries(g, branches, stashes, root_name),
        ).len(),
        forall|k: int|
            0 <= k < topo.root.refs@.len() ==> matches_entry(
                g,
                branches,
                stashes,
                #[trigger] topo.root.refs@[k],
                sort_entries_spec(
                    g,
                    branches,
                    stashes,
                    root_entries(g, branches, stashes, root_name),
                )[k],
            ),
    ensures
        match resolve_base_spec(g, stashes[i].id) {
            Result::Err(e) => topo.failures@.contains(
                StashFailure { record: stashes[i], error: e },
            ),
            Result::Ok(b) => match owner_index(g, branches, b.id) {
                Option::None => topo.orphans@.contains(
                    ResolvedStash { record: stashes[i], base: b },
                ),
                Option::Some(_) => topology_holds_stash(
                    topo.root,
                    ResolvedStash { record: stashes[i], base: b },
                ),
            },
        },
{
    lemma_stash_partition(g, branches, stashes, i);
    match resolve_base_spec(g, stashes[i].id) {
        Result::Err(_) => {},
        Result::Ok(b) => {
            let x = ResolvedStash { record: stashes[i], base: b };
            match owner_index(g, branches, b.id) {
                Option::None => {},
                Option::Some(bi) => {
                    assert(0 <= bi < branches.len()) by {
                        lemma_owner_index_bound(g, branches, b.id);
                    }
                    let grp = group_spec(g, branches, stashes, bi);
                    let sorted_grp = sort_stashes_spec(grp);
                    lemma_sort_stashes_contains(grp, x);
                    assert(sorted_grp.contains(x));
                    let entries = root_entries(g, branches, stashes, root_name);
                    let e = if branches[bi].name@ == root_name {
                        RootEntry::Stash(x)
                    } else {
                        RootEntry::Child(bi)
                    };
                    assert(entries.contains(e)) by {
                        let roots = root_stash_entries(g, branches, stashes, root_name);
                        let childs = child_entries(
                            g,
                            branches,
                            stashes,
                            root_name,
                            branches.len() as int,
                        );
                        if branches[bi].name@ == root_name {
                            lemma_name_index_of_distinct(branches, bi);
                            let j = choose|j: int|
                                0 <= j < sorted_grp.len() && sorted_grp[j] == x;
                            assert(roots[j] == RootEntry::Stash(x));
                            assert(entries[j] == roots[j]);
                        } else {
                            lemma_child_entry_present(
                                g,
                                branches,
                                stashes,
                                root_name,
                                bi,
                                branches.len() as int,
                            );
                            let j = choose|j: int|
                                0 <= j < childs.len() && childs[j] == RootEntry::Child(bi);
                            assert(entries[roots.len() + j] == childs[j]);
                        }
                    }
                    let sorted_entries = sort_entries_spec(g, branches, stashes, entries);
                    lemma_sort_entries_contains(g, branches, stashes, entries, e);
                    let k = choose|k: int|
                        0 <= k < sorted_entries.len() && sorted_entries[k] == e;
                    assert(matches_entry(g, branches, stashes, topo.root.refs@[k], e));
                    assert(ref_holds_stash(topo.root.refs@[k], x)) by {
                        match e {
                            RootEntry::Stash(_) => {},
                            RootEntry::Child(_) => {
                                match topo.root.refs@[k] {
                                    GitRef::Branch(bn) => {
                                        let j = choose|j: int|
                                            0 <= j < sorted_grp.len() && sorted_grp[j] == x;
                                        assert(bn.refs@[j] == GitRef::Stash(x));
                                    },
                                    GitRef::Stash(_) => {},
                                }
                            },
                        }
                    }
                },
            }
        },
    }
}

/// An owning branch index is a real index into the branch list.
proof fn lemma_owner_index_bound(g: Seq<CommitInfo>, branches: Seq<BranchTip>, base: u64)
    ensures
        match owner_index(g, branches, base) {
            Option::Some(bi) => 0 <= bi < branches.len(),
            Option::None => true,
        },
    decreases branches.len(),
{
    if branches.len() > 0 && !owns(g, branches[0], base) {
        lemma_owner_index_bound(g, branches.drop_first(), base);
    }
}

/// Reads the sort key of a built reference.
fn git_ref_key(rf: &GitRef) -> (t: i64)
    ensures
        t == ref_key(*rf),
{
    match rf {
        GitRef::Stash(s) => s.base.timestamp,
        GitRef::Branch(b) => {
            if b.refs.len() == 0 {
                b.timestamp
            } else {
                match &b.refs[0] {
                    GitRef::Stash(s) => s.base.timestamp,
                    GitRef::Branch(bb) => bb.timestamp,
                }
            }
        },
    }
}

/// Sorts the root's references by derived timestamp, ascending and stable,
/// following the abstract entries step for step.
fn sort_root_refs(
    refs: Vec<GitRef>,
    Ghost(g): Ghost<Seq<CommitInfo>>,
    Ghost(branches): Ghost<Seq<BranchTip>>,
    Ghost(stashes): Ghost<Seq<StashRecord>>,
    Ghost(entries): Ghost<Seq<RootEntry>>,
) -> (r: Vec<GitRef>)
    requires
        refs@.len() == entries.len(),
        forall|k: int|
            0 <= k < entries.len() ==> matches_entry(
                g,
                branches,
                stashes,
                #[trigger] refs@[k],
                entries[k],
            ),
    ensures
        r@.len() == sort_entries_spec(g, branches, stashes, entries).len(),
        forall|k: int|
            0 <= k < r@.len() ==> matches_entry(
                g,
                branches,
                stashes,
                #[trigger] r@[k],
                sort_entries_spec(g, branches, stashes, entries)[k],
            ),
{
    let mut refs = refs;
    let mut r: Vec<GitRef> = Vec::new();
    let mut count: usize = 0;
    let total = refs.len();
    proof {
        assert(entries.len() == total);
        assert(entries.take(0) =~= Seq::<RootEntry>::empty());
    }
    while refs.len() > 0
        invariant
            refs@.len() + count == entries.len(),
            count <= entries.len(),
            entries.len() <= usize::MAX,
            forall|k: int|
                0 <= k < refs@.len() ==> matches_entry(
                    g,
                    branches,
                    stashes,
                    #[trigger] refs@[k],
                    entries[count + k],
                ),
            r@.len() == sort_entries_spec(g, branches, stashes, entries.take(count as int)).len(),
            forall|k: int|
                0 <= k < r@.len() ==> matches_entry(
                    g,
                    branches,
                    stashes,
                    #[trigger] r@[k],
                    sort_entries_spec(g, branches, stashes, entries.take(count as int))[k],
                ),
        decreases refs@.len(),
    {
        let x = refs.remove(0);
        let ghost e = entries[count as int];
        let ghost sorted = sort_entries_spec(g, branches, stashes, entries.take(count as int));
        proof {
            lemma_matches_entry_key(g, branches, stashes, x, e);
        }
        let xk = git_ref_key(&x);
        let n = r.len();
        let mut pos: usize = 0;
        while pos < n && git_ref_key_at(&r, pos) <= xk
            invariant
                n == r.len(),
                r@.len() == sorted.len(),
                forall|k: int|
                    0 <= k < r@.len() ==> matches_entry(
                        g,
                        branches,
                        stashes,
                        #[trigger] r@[k],
                        sorted[k],
                    ),
                xk == entry_key(g, branches, stashes, e),
                pos <= n,
                forall|k: int|
                    0 <= k < pos ==> entry_key(g, branches, stashes, #[trigger] sorted[k]) <= xk,
            decreases n - pos,
        {
            proof {
                lemma_matches_entry_key(g, branches, stashes, r@[pos as int], sorted[pos as int]);
            }
            pos = pos + 1;
        }
        proof {
            if pos < n {
                lemma_matches_entry_key(g, branches, stashes, r@[pos as int], sorted[pos as int]);
            }
            lemma_insert_entry_at_pos(g, branches, stashes, sorted, e, pos as int);
        }
        r.insert(pos, x);
        proof {
            assert(entries.take(count + 1).drop_last() =~= entries.take(count as int));
            assert(entries.take(count + 1).last() == entries[count as int]);
            let new_sorted = sort_entries_spec(g, branches, stashes, entries.take(count + 1));
            assert(new_sorted == sorted.take(pos as int) + seq![e] + sorted.skip(pos as int));
            assert forall|k: int| 0 <= k < r@.len() implies matches_entry(
                g,
                branches,
                stashes,
                #[trigger] r@[k],
                new_sorted[k],
            ) by {
                if k < pos {
                    assert(r@[k] == r@.subrange(0, pos as int)[k]);
                    assert(new_sorted[k] == sorted[k]);
                } else if k == pos {
                    assert(new_sorted[k] == e);
                } else {
                    assert(new_sorted[k] == sorted[k - 1]);
                }
            }
        }
        count = count + 1;
    }
    proof {
        assert(entries.take(entries.len() as int) =~= entries);
    }
    r
}

/// Reads the sort key of the reference at one position.
fn git_ref_key_at(r: &Vec<GitRef>, i: usize) -> (t: i64)
    requires
        i < r@.len(),
    ensures
        t == ref_key(r@[i as int]),
{
    git_ref_key(&r[i])
}

/// Turns a run of attributed stashes into stash references.
fn stashes_to_refs(v: Vec<ResolvedStash>) -> (r: Vec<GitRef>)
    ensures
        r@ == stash_refs(v@),
{
    let mut r: Vec<GitRef> = Vec::new();
    let n = v.len();
    let mut i: usize = 0;
    while i < n
        invariant
            n == v.len(),
            i <= n,
            r@ == stash_refs(v@.take(i as int)),
        decreases n - i,
    {
        r.push(GitRef::Stash(clone_resolved(&v[i])));
        proof {
            assert(stash_refs(v@.take(i + 1)) =~= stash_refs(v@.take(i as int)).push(
                GitRef::Stash(v@[i as int]),
            ));
        }
        i = i + 1;
    }
    proof {
        assert(v@.take(n as int) =~= v@);
    }
    r
}

/// Finds the first branch carrying this name.
fn find_name(branches: &Vec<BranchTip>, name: &String) -> (r: Option<usize>)
    ensures
        match r {
            Option::Some(ri) => name_index(branches@, name@) == Option::Some(ri as int),
            Option::None => name_index(branches@, name@) is None,
        },
{
    let n = branches.len();
    let mut i: usize = 0;
    assert(branches@.skip(0) =~= branches@);
    while i < n
        invariant
            n == branches.len(),
            i <= n,
            name_index(branches@, name@) == (match name_index(branches@.skip(i as int), name@) {
                Option::Some(j) => Option::Some(j + i),
                Option::None => Option::None,
            }),
        decreases n - i,
    {
        if branches[i].name.eq(name) {
            assert(branches@.skip(i as int)[0] == branches@[i as int]);
            assert(name_index(branches@.skip(i as int), name@) == Option::Some(0int));
            return Option::Some(i);
        }
        proof {
            assert(branches@.skip(i as int)[0] == branches@[i as int]);
            assert(branches@.skip(i as int).drop_first() =~= branches@.skip(i + 1));
        }
        i = i + 1;
    }
    proof {
        assert(branches@.skip(n as int) =~= Seq::<BranchTip>::empty());
    }
    Option::None
}

/// Builds the whole topology: attributes every stash to the first branch
/// whose tip its base commit reaches, groups per branch, sorts each group
/// by base timestamp (stable), assembles the root node named `root_name`
/// with its own stashes and one nested node per other owning branch, orders
/// the root's references by derived timestamp (stable), and collects
/// orphans and per-stash failures in enumeration order.
pub fn build_topology(
    g: &CommitGraph,
    branches: &Vec<BranchTip>,
    stashes: &Vec<StashRecord>,
    root_name: String,
) -> (r: Topology)
    ensures
        r.root.name == root_name,
        r.root.timestamp == 0,
        r.failures@ == failures_spec(g.commits@, stashes@),
        r.orphans@ == orphans_spec(g.commits@, branches@, stashes@),
        r.root.refs@.len() == sort_entries_spec(
            g.commits@,
            branches@,
            stashes@,
            root_entries(g.commits@, branches@, stashes@, root_name@),
        ).len(),
        forall|k: int|
            0 <= k < r.root.refs@.len() ==> matches_entry(
                g.commits@,
                branches@,
                stashes@,
                #[trigger] r.root.refs@[k],
                sort_entries_spec(
                    g.commits@,
                    branches@,
                    stashes@,
                    root_entries(g.commits@, branches@, stashes@, root_name@),
                )[k],
            ),
{
    let ghost gs = g.commits@;
    let failures = collect_failures(g, stashes);
    let orphans = collect_orphans(g, branches, stashes);

    let mut refs: Vec<GitRef> = Vec::new();
    let ghost mut entries: Seq<RootEntry> = Seq::empty();

    match find_name(branches, &root_name) {
        Option::Some(ri) => {
            let grp = sort_stashes(collect_group(g, branches, stashes, ri));
            let ghost sgrp = sort_stashes_spec(group_spec(gs, branches@, stashes@, ri as int));
            let m = grp.len();
            let mut i: usize = 0;
            while i < m
                invariant
                    m == grp.len(),
                    i <= m,
                    grp@ == sgrp,
                    refs@.len() == i,
                    entries == sgrp.take(i as int).map_values(|x: ResolvedStash| RootEntry::Stash(x)),
                    forall|k: int|
                        0 <= k < i ==> matches_entry(
                            gs,
                            branches@,
                            stashes@,
                            #[trigger] refs@[k],
                            entries[k],
                        ),
                decreases m - i,
            {
                refs.push(GitRef::Stash(clone_resolved(&grp[i])));
                proof {
                    entries = entries.push(RootEntry::Stash(sgrp[i as int]));
                    assert(sgrp.take(i + 1).map_values(|x: ResolvedStash| RootEntry::Stash(x))
                        =~= sgrp.take(i as int).map_values(
                        |x: ResolvedStash| RootEntry::Stash(x),
                    ).push(RootEntry::Stash(sgrp[i as int])));
                }
                i = i + 1;
            }
            proof {
                assert(sgrp.take(m as int) =~= sgrp);
                assert(entries =~= root_stash_entries(gs, branches@, stashes@, root_name@));
            }
        },
        Option::None => {
            proof {
                assert(entries =~= root_stash_entries(gs, branches@, stashes@, root_name@));
            }
        },
    }

    let ghost base_entries = entries;
    let nb = branches.len();
    let mut bi: usize = 0;
    while bi < nb
        invariant
            nb == branches.len(),
            bi <= nb,
            gs == g.commits@,
            entries == base_entries + child_entries(gs, branches@, stashes@, root_name@, bi as int),
            base_entries == root_stash_entries(gs, branches@, stashes@, root_name@),
            refs@.len() == entries.len(),
            forall|k: int|
                0 <= k < entries.len() ==> matches_entry(
                    gs,
                    branches@,
                    stashes@,
                    #[trigger] refs@[k],
                    entries[k],
                ),
        decreases nb - bi,
    {
        if !branches[bi].name.eq(&root_name) {
            let grp = collect_group(g, branches, stashes, bi);
            if grp.len() > 0 {
                let sorted = sort_stashes(grp);
                let node_refs = stashes_to_refs(sorted);
                let node = BranchNode {
                    name: branches[bi].name.clone(),
                    timestamp: 0,
                    refs: node_refs,
                };
                refs.push(GitRef::Branch(Box::new(node)));
                proof {
                    entries = entries.push(RootEntry::Child(bi as int));
                }
            }
        }
        proof {
            assert(entries == base_entries + child_entries(
                gs,
                branches@,
                stashes@,
                root_name@,
                bi + 1,
            ));
        }
        bi = bi + 1;
    }
    proof {
        assert(entries == root_entries(gs, branches@, stashes@, root_name@));
    }

    let sorted_refs = sort_root_refs(
        refs,
        Ghost(gs),
        Ghost(branches@),
        Ghost(stashes@),
        Ghost(entries),
    );

    Topology {
        root: BranchNode { name: root_name, timestamp: 0, refs: sorted_refs },
        orphans,
        failures,
    }
}

} // verus!

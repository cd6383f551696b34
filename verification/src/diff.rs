//! Diff reconstruction engine.
//!
//! Folds an ordered stream of line-oriented diff events (file boundaries,
//! hunk boundaries, line records) into a diff document: an ordered sequence
//! of file-level items, each holding ordered hunks, each holding ordered
//! line changes. Malformed or out-of-order events never fail; they degrade
//! through the boundary rules (noise lines are dropped, line records with no
//! open hunk are dropped, repeated identical headers are no-ops).

use vstd::prelude::*;

verus! {

/// A single line change in a hunk.
#[derive(Debug, PartialEq, Eq)]
pub struct LineChange {
    /// '-', '+', or ' ' (context)
    pub origin: char,
    /// The content of the line
    pub content: String,
}

/// A single hunk in a diff, which can contain multiple line changes.
#[derive(Debug, PartialEq, Eq)]
pub struct Hunk {
    /// Start line in the old file
    pub old_start: usize,
    /// Number of lines in the old file
    pub old_lines: usize,
    /// Start line in the new file
    pub new_start: usize,
    /// Number of lines in the new file
    pub new_lines: usize,
    /// List of changes in the hunk
    pub lines: Vec<LineChange>,
}

/// A single diff item (one file's change), which can contain multiple hunks.
#[derive(Debug, PartialEq, Eq)]
pub struct DiffItem {
    /// Path to the old file (for "a/filename"); absent for created files
    pub old_file: Option<String>,
    /// Path to the new file (for "b/filename"); absent for deleted files
    pub new_file: Option<String>,
    /// List of hunks with changes
    pub hunks: Vec<Hunk>,
}

/// One event of the diff event stream handed in by the event source.
#[derive(Debug, PartialEq, Eq)]
pub enum DiffEvent {
    /// A file-pair boundary: old path and new path.
    FileHeader(Option<String>, Option<String>),
    /// A hunk boundary: old start, old line count, new start, new line count.
    HunkHeader(usize, usize, usize, usize),
    /// One line of a hunk: origin tag and raw content.
    LineRecord(char, String),
}

/// Mathematical model of a line change.
#[verifier::ext_equal]
pub struct LineChangeView {
    pub origin: char,
    pub content: Seq<char>,
}

/// Mathematical model of a hunk.
#[verifier::ext_equal]
pub struct HunkView {
    pub old_start: nat,
    pub old_lines: nat,
    pub new_start: nat,
    pub new_lines: nat,
    pub lines: Seq<LineChangeView>,
}

/// Mathematical model of a diff item.
#[verifier::ext_equal]
pub struct DiffItemView {
    pub old_file: Option<Seq<char>>,
    pub new_file: Option<Seq<char>>,
    pub hunks: Seq<HunkView>,
}

/// Mathematical model of a diff event.
#[verifier::ext_equal]
pub enum DiffEventView {
    FileHeader(Option<Seq<char>>, Option<Seq<char>>),
    HunkHeader(nat, nat, nat, nat),
    LineRecord(char, Seq<char>),
}

impl View for LineChange {
    type V = LineChangeView;

    open spec fn view(&self) -> LineChangeView {
        LineChangeView { origin: self.origin, content: self.content@ }
    }
}

impl View for Hunk {
    type V = HunkView;

    open spec fn view(&self) -> HunkView {
        HunkView {
            old_start: self.old_start as nat,
            old_lines: self.old_lines as nat,
            new_start: self.new_start as nat,
            new_lines: self.new_lines as nat,
            lines: self.lines@.map_values(|lc: LineChange| lc@),
        }
    }
}

/// The model of an optional path.
pub open spec fn opt_path_view(o: Option<String>) -> Option<Seq<char>> {
    match o {
        Option::Some(s) => Option::Some(s@),
        Option::None => Option::None,
    }
}

impl View for DiffItem {
    type V = DiffItemView;

    open spec fn view(&self) -> DiffItemView {
        DiffItemView {
            old_file: opt_path_view(self.old_file),
            new_file: opt_path_view(self.new_file),
            hunks: self.hunks@.map_values(|h: Hunk| h@),
        }
    }
}

impl View for DiffEvent {
    type V = DiffEventView;

    open spec fn view(&self) -> DiffEventView {
        match self {
            DiffEvent::FileHeader(o, n) => DiffEventView::FileHeader(
                opt_path_view(*o),
                opt_path_view(*n),
            ),
            DiffEvent::HunkHeader(os, ol, ns, nl) => DiffEventView::HunkHeader(
                *os as nat,
                *ol as nat,
                *ns as nat,
                *nl as nat,
            ),
            DiffEvent::LineRecord(c, s) => DiffEventView::LineRecord(*c, s@),
        }
    }
}

/// The three line origins that a hunk may record; every other origin tag is
/// noise and is dropped.
pub open spec fn accepted_origin(c: char) -> bool {
    c == ' ' || c == '+' || c == '-'
}

/// State of the boundary-detection fold: the finished items, at most one
/// item under construction, and at most one hunk under construction.
#[verifier::ext_equal]
pub struct FoldState {
    pub done: Seq<DiffItemView>,
    pub cur_item: Option<DiffItemView>,
    pub cur_hunk: Option<HunkView>,
}

/// The state before any event: nothing finished, nothing open.
pub open spec fn init_state() -> FoldState {
    FoldState { done: Seq::empty(), cur_item: Option::None, cur_hunk: Option::None }
}

/// Closes the hunk under construction into the item under construction.
/// With no open item the hunk is discarded; with no open hunk this is a
/// no-op.
pub open spec fn attach_hunk_spec(
    item: Option<DiffItemView>,
    hunk: Option<HunkView>,
) -> Option<DiffItemView> {
    match (item, hunk) {
        (Option::Some(it), Option::Some(h)) => Option::Some(
            DiffItemView { old_file: it.old_file, new_file: it.new_file, hunks: it.hunks.push(h) },
        ),
        _ => item,
    }
}

/// One step of the boundary-detection state machine.
pub open spec fn step(st: FoldState, ev: DiffEventView) -> FoldState {
    match ev {
        DiffEventView::FileHeader(o, n) => {
            if st.cur_item matches Option::Some(it) && it.old_file == o && it.new_file == n {
                st
            } else {
                let closed = attach_hunk_spec(st.cur_item, st.cur_hunk);
                let done = match closed {
                    Option::Some(it) => st.done.push(it),
                    Option::None => st.done,
                };
                FoldState {
                    done,
                    cur_item: Option::Some(
                        DiffItemView { old_file: o, new_file: n, hunks: Seq::empty() },
                    ),
                    cur_hunk: Option::None,
                }
            }
        },
        DiffEventView::HunkHeader(os, ol, ns, nl) => {
            if st.cur_hunk matches Option::Some(h) && h.old_start == os && h.new_start == ns {
                st
            } else {
                FoldState {
                    done: st.done,
                    cur_item: attach_hunk_spec(st.cur_item, st.cur_hunk),
                    cur_hunk: Option::Some(
                        HunkView {
                            old_start: os,
                            old_lines: ol,
                            new_start: ns,
                            new_lines: nl,
                            lines: Seq::empty(),
                        },
                    ),
                }
            }
        },
        DiffEventView::LineRecord(c, content) => {
            match st.cur_hunk {
                Option::Some(h) => {
                    if accepted_origin(c) {
                        FoldState {
                            done: st.done,
                            cur_item: st.cur_item,
                            cur_hunk: Option::Some(
                                HunkView {
                                    old_start: h.old_start,
                                    old_lines: h.old_lines,
                                    new_start: h.new_start,
                                    new_lines: h.new_lines,
                                    lines: h.lines.push(LineChangeView { origin: c, content }),
                                },
                            ),
                        }
                    } else {
                        st
                    }
                },
                Option::None => st,
            }
        },
    }
}

/// Folds a whole event sequence, event by event, from the given state.
pub open spec fn fold_events(st: FoldState, evs: Seq<DiffEventView>) -> FoldState
    decreases evs.len(),
{
    if evs.len() == 0 {
        st
    } else {
        fold_events(step(st, evs[0]), evs.drop_first())
    }
}

/// End-of-stream flush: the open hunk closes into the open item, the open
/// item closes into the output.
pub open spec fn finish(st: FoldState) -> Seq<DiffItemView> {
    match attach_hunk_spec(st.cur_item, st.cur_hunk) {
        Option::Some(it) => st.done.push(it),
        Option::None => st.done,
    }
}

/// What reconstruction returns for a given event sequence: fold every event
/// from the empty state, then flush.
pub open spec fn reconstruct_spec(evs: Seq<DiffEventView>) -> Seq<DiffItemView> {
    finish(fold_events(init_state(), evs))
}

/// The model of an event list.
pub open spec fn event_views(s: Seq<DiffEvent>) -> Seq<DiffEventView> {
    s.map_values(|e: DiffEvent| e@)
}

/// The model of a diff document.
pub open spec fn item_views(s: Seq<DiffItem>) -> Seq<DiffItemView> {
    s.map_values(|d: DiffItem| d@)
}

/// The model of an optional item under construction.
pub open spec fn opt_item_view(o: Option<DiffItem>) -> Option<DiffItemView> {
    match o {
        Option::Some(d) => Option::Some(d@),
        Option::None => Option::None,
    }
}

/// The model of an optional hunk under construction.
pub open spec fn opt_hunk_view(o: Option<Hunk>) -> Option<HunkView> {
    match o {
        Option::Some(h) => Option::Some(h@),
        Option::None => Option::None,
    }
}

/// Folding distributes over appending one event at the end.
pub proof fn lemma_fold_push(st: FoldState, evs: Seq<DiffEventView>, ev: DiffEventView)
    ensures
        fold_events(st, evs.push(ev)) == step(fold_events(st, evs), ev),
    decreases evs.len(),
{
    assert(fold_events(st, evs.push(ev)) == fold_events(
        step(st, evs.push(ev)[0]),
        evs.push(ev).drop_first(),
    ));
    if evs.len() == 0 {
        assert(evs.push(ev)[0] == ev);
        assert(evs.push(ev).drop_first() =~= Seq::<DiffEventView>::empty());
        assert(fold_events(step(st, ev), Seq::<DiffEventView>::empty()) == step(st, ev));
        assert(fold_events(st, evs) == st);
    } else {
        assert(evs.push(ev)[0] == evs[0]);
        assert(evs.push(ev).drop_first() =~= evs.drop_first().push(ev));
        lemma_fold_push(step(st, evs[0]), evs.drop_first(), ev);
        assert(fold_events(st, evs) == fold_events(step(st, evs[0]), evs.drop_first()));
    }
}

/// Folding distributes over concatenation of event sequences.
pub proof fn lemma_fold_concat(st: FoldState, a: Seq<DiffEventView>, b: Seq<DiffEventView>)
    ensures
        fold_events(st, a + b) == fold_events(fold_events(st, a), b),
    decreases a.len(),
{
    if a.len() == 0 {
        assert(a + b =~= b);
    } else {
        assert((a + b).drop_first() =~= a.drop_first() + b);
        lemma_fold_concat(step(st, a[0]), a.drop_first(), b);
    }
}

/// Law: reconstruction is deterministic. Feeding the same finite event
/// sequence twice yields identical diff documents.
pub proof fn lemma_reconstruct_idempotent(a: Seq<DiffEventView>, b: Seq<DiffEventView>)
    requires
        a == b,
    ensures
        reconstruct_spec(a) == reconstruct_spec(b),
{
}

/// Whether an event is a file-pair boundary.
pub open spec fn is_file_header(ev: DiffEventView) -> bool {
    ev matches DiffEventView::FileHeader(_, _)
}

/// Whether an event is a file-pair boundary carrying exactly this pair.
pub open spec fn file_header_for(
    ev: DiffEventView,
    o: Option<Seq<char>>,
    n: Option<Seq<char>>,
) -> bool {
    ev == DiffEventView::FileHeader(o, n)
}

/// Whether the item under construction (if any) carries this path pair.
pub open spec fn cur_item_pair_is(
    st: FoldState,
    o: Option<Seq<char>>,
    n: Option<Seq<char>>,
) -> bool {
    match st.cur_item {
        Option::Some(it) => it.old_file == o && it.new_file == n,
        Option::None => true,
    }
}

proof fn lemma_fold_same_pair(
    st: FoldState,
    evs: Seq<DiffEventView>,
    o: Option<Seq<char>>,
    n: Option<Seq<char>>,
)
    requires
        st.done.len() == 0,
        cur_item_pair_is(st, o, n),
        forall|i: int|
            0 <= i < evs.len() && is_file_header(#[trigger] evs[i]) ==> file_header_for(
                evs[i],
                o,
                n,
            ),
    ensures
        fold_events(st, evs).done.len() == 0,
        cur_item_pair_is(fold_events(st, evs), o, n),
        fold_events(st, evs).cur_item is Some <==> (st.cur_item is Some || exists|i: int|
            0 <= i < evs.len() && is_file_header(#[trigger] evs[i])),
    decreases evs.len(),
{
    if evs.len() > 0 {
        let st1 = step(st, evs[0]);
        assert(st1.done.len() == 0 && cur_item_pair_is(st1, o, n));
        assert(st1.cur_item is Some <==> (st.cur_item is Some || is_file_header(evs[0])));
        assert(forall|i: int|
            0 <= i < evs.drop_first().len() && is_file_header(#[trigger] evs.drop_first()[i])
                ==> file_header_for(evs.drop_first()[i], o, n));
        lemma_fold_same_pair(st1, evs.drop_first(), o, n);
        if fold_events(st, evs).cur_item is Some {
            if !(st.cur_item is Some) {
                if is_file_header(evs[0]) {
                    assert(0 <= 0 < evs.len() && is_file_header(evs[0]));
                } else {
                    let j = choose|j: int|
                        0 <= j < evs.drop_first().len() && is_file_header(
                            #[trigger] evs.drop_first()[j],
                        );
                    assert(evs[j + 1] == evs.drop_first()[j]);
                }
            }
        } else {
            assert(forall|i: int| 0 <= i < evs.len() ==> !is_file_header(#[trigger] evs[i])) by {
                assert forall|i: int| 0 <= i < evs.len() implies !is_file_header(
                    #[trigger] evs[i],
                ) by {
                    if i > 0 {
                        assert(evs.drop_first()[i - 1] == evs[i]);
                    }
                }
            }
        }
    }
}

/// Law: boundary correctness. For an event sequence in which every file
/// header carries the same (old, new) path pair and at least one file header
/// occurs, the reconstructed document holds exactly one item, and it carries
/// that pair.
pub proof fn lemma_boundary_single_item(
    evs: Seq<DiffEventView>,
    o: Option<Seq<char>>,
    n: Option<Seq<char>>,
)
    requires
        forall|i: int|
            0 <= i < evs.len() && is_file_header(#[trigger] evs[i]) ==> file_header_for(
                evs[i],
                o,
                n,
            ),
        exists|i: int| 0 <= i < evs.len() && is_file_header(#[trigger] evs[i]),
    ensures
        reconstruct_spec(evs).len() == 1,
        reconstruct_spec(evs)[0].old_file == o,
        reconstruct_spec(evs)[0].new_file == n,
{
    lemma_fold_same_pair(init_state(), evs, o, n);
}

proof fn lemma_fold_single(st: FoldState, ev: DiffEventView)
    ensures
        fold_events(st, seq![ev]) == step(st, ev),
{
    assert(seq![ev].drop_first() =~= Seq::<DiffEventView>::empty());
    assert(fold_events(step(st, ev), seq![ev].drop_first()) == step(st, ev));
}

/// The events that a run of line changes stands for.
pub open spec fn line_events(lines: Seq<LineChangeView>) -> Seq<DiffEventView> {
    lines.map_values(|lc: LineChangeView| DiffEventView::LineRecord(lc.origin, lc.content))
}

/// Whether every line change in the run carries an accepted origin.
pub open spec fn lines_accepted(lines: Seq<LineChangeView>) -> bool {
    forall|i: int| 0 <= i < lines.len() ==> accepted_origin(#[trigger] lines[i].origin)
}

proof fn lemma_fold_line_run(st: FoldState, h: HunkView, lines: Seq<LineChangeView>)
    requires
        st.cur_hunk == Option::Some(h),
        lines_accepted(lines),
    ensures
        fold_events(st, line_events(lines)) == (FoldState {
            done: st.done,
            cur_item: st.cur_item,
            cur_hunk: Option::Some(
                HunkView {
                    old_start: h.old_start,
                    old_lines: h.old_lines,
                    new_start: h.new_start,
                    new_lines: h.new_lines,
                    lines: h.lines + lines,
                },
            ),
        }),
    decreases lines.len(),
{
    if lines.len() == 0 {
        assert(line_events(lines) =~= Seq::<DiffEventView>::empty());
        assert(h.lines + lines =~= h.lines);
        assert(fold_events(st, line_events(lines)).cur_hunk->Some_0 =~= HunkView {
            old_start: h.old_start,
            old_lines: h.old_lines,
            new_start: h.new_start,
            new_lines: h.new_lines,
            lines: h.lines + lines,
        });
    } else {
        let st1 = step(st, line_events(lines)[0]);
        let h1 = HunkView {
            old_start: h.old_start,
            old_lines: h.old_lines,
            new_start: h.new_start,
            new_lines: h.new_lines,
            lines: h.lines.push(lines[0]),
        };
        assert(st1.cur_hunk->Some_0 =~= h1);
        assert(line_events(lines).drop_first() =~= line_events(lines.drop_first()));
        lemma_fold_line_run(st1, h1, lines.drop_first());
        assert(h.lines.push(lines[0]) + lines.drop_first() =~= h.lines + lines);
        assert(fold_events(st, line_events(lines)).cur_hunk->Some_0 =~= HunkView {
            old_start: h.old_start,
            old_lines: h.old_lines,
            new_start: h.new_start,
            new_lines: h.new_lines,
            lines: h.lines + lines,
        });
    }
}

/// Law: hunk splitting. Inside a single file, two hunk headers with
/// different start positions produce exactly two hunks, with the line
/// records between and after them partitioned to the first and second hunk
/// respectively.
pub proof fn lemma_hunk_split(
    o: Option<Seq<char>>,
    n: Option<Seq<char>>,
    os1: nat,
    ol1: nat,
    ns1: nat,
    nl1: nat,
    os2: nat,
    ol2: nat,
    ns2: nat,
    nl2: nat,
    lines1: Seq<LineChangeView>,
    lines2: Seq<LineChangeView>,
)
    requires
        os1 != os2 || ns1 != ns2,
        lines_accepted(lines1),
        lines_accepted(lines2),
    ensures
        ({
            let evs = seq![DiffEventView::FileHeader(o, n)] + seq![
                DiffEventView::HunkHeader(os1, ol1, ns1, nl1),
            ] + line_events(lines1) + seq![DiffEventView::HunkHeader(os2, ol2, ns2, nl2)]
                + line_events(lines2);
            reconstruct_spec(evs) == seq![
                DiffItemView {
                    old_file: o,
                    new_file: n,
                    hunks: seq![
                        HunkView {
                            old_start: os1,
                            old_lines: ol1,
                            new_start: ns1,
                            new_lines: nl1,
                            lines: lines1,
                        },
                        HunkView {
                            old_start: os2,
                            old_lines: ol2,
                            new_start: ns2,
                            new_lines: nl2,
                            lines: lines2,
                        },
                    ],
                },
            ]
        }),
{
    let fh = seq![DiffEventView::FileHeader(o, n)];
    let hh1 = seq![DiffEventView::HunkHeader(os1, ol1, ns1, nl1)];
    let hh2 = seq![DiffEventView::HunkHeader(os2, ol2, ns2, nl2)];
    let l1 = line_events(lines1);
    let l2 = line_events(lines2);
    let evs = fh + hh1 + l1 + hh2 + l2;
    let h1 = HunkView { old_start: os1, old_lines: ol1, new_start: ns1, new_lines: nl1, lines: lines1 };
    let h2 = HunkView { old_start: os2, old_lines: ol2, new_start: ns2, new_lines: nl2, lines: lines2 };

    let s0 = init_state();
    let s1 = fold_events(s0, fh);
    lemma_fold_single(s0, fh[0]);
    assert(fh =~= seq![fh[0]]);
    assert(s1 == step(s0, fh[0]));
    let s2 = fold_events(s1, hh1);
    lemma_fold_single(s1, hh1[0]);
    assert(hh1 =~= seq![hh1[0]]);
    assert(s2 == step(s1, hh1[0]));
    let s3 = fold_events(s2, l1);
    let h1e = HunkView { old_start: os1, old_lines: ol1, new_start: ns1, new_lines: nl1, lines: Seq::empty() };
    assert(s2.cur_hunk->Some_0 =~= h1e);
    lemma_fold_line_run(s2, h1e, lines1);
    assert(s3.cur_hunk->Some_0 =~= h1);
    let s4 = fold_events(s3, hh2);
    lemma_fold_single(s3, hh2[0]);
    assert(hh2 =~= seq![hh2[0]]);
    assert(s4 == step(s3, hh2[0]));
    let h2e = HunkView { old_start: os2, old_lines: ol2, new_start: ns2, new_lines: nl2, lines: Seq::empty() };
    assert(s4.cur_hunk->Some_0 =~= h2e);
    let s5 = fold_events(s4, l2);
    lemma_fold_line_run(s4, h2e, lines2);
    assert(s5.cur_hunk->Some_0 =~= h2);

    lemma_fold_concat(s0, fh, hh1);
    lemma_fold_concat(s0, fh + hh1, l1);
    lemma_fold_concat(s0, fh + hh1 + l1, hh2);
    lemma_fold_concat(s0, fh + hh1 + l1 + hh2, l2);
    assert(fold_events(s0, evs) == s5);

    let doc = finish(s5);
    assert(doc[0].hunks =~= seq![h1, h2]);
    assert(doc =~= seq![DiffItemView { old_file: o, new_file: n, hunks: seq![h1, h2] }]);
}

/// Whether every line of the hunk carries an accepted origin.
pub open spec fn hunk_noise_free(h: HunkView) -> bool {
    lines_accepted(h.lines)
}

/// Whether every hunk of the item is free of noise lines.
pub open spec fn item_noise_free(it: DiffItemView) -> bool {
    forall|i: int| 0 <= i < it.hunks.len() ==> hunk_noise_free(#[trigger] it.hunks[i])
}

/// Whether every item of the document is free of noise lines.
pub open spec fn doc_noise_free(doc: Seq<DiffItemView>) -> bool {
    forall|i: int| 0 <= i < doc.len() ==> item_noise_free(#[trigger] doc[i])
}

spec fn state_noise_free(st: FoldState) -> bool {
    &&& doc_noise_free(st.done)
    &&& match st.cur_item {
        Option::Some(it) => item_noise_free(it),
        Option::None => true,
    }
    &&& match st.cur_hunk {
        Option::Some(h) => hunk_noise_free(h),
        Option::None => true,
    }
}

proof fn lemma_step_noise_free(st: FoldState, ev: DiffEventView)
    requires
        state_noise_free(st),
    ensures
        state_noise_free(step(st, ev)),
{
    let closed = attach_hunk_spec(st.cur_item, st.cur_hunk);
    match closed {
        Option::Some(it) => {
            assert(item_noise_free(it)) by {
                match (st.cur_item, st.cur_hunk) {
                    (Option::Some(it0), Option::Some(h0)) => {
                        assert(forall|i: int|
                            0 <= i < it.hunks.len() ==> hunk_noise_free(#[trigger] it.hunks[i]));
                    },
                    _ => {},
                }
            }
        },
        Option::None => {},
    }
}

proof fn lemma_fold_noise_free(st: FoldState, evs: Seq<DiffEventView>)
    requires
        state_noise_free(st),
    ensures
        state_noise_free(fold_events(st, evs)),
    decreases evs.len(),
{
    if evs.len() > 0 {
        lemma_step_noise_free(st, evs[0]);
        lemma_fold_noise_free(step(st, evs[0]), evs.drop_first());
    }
}

/// Law: dropped noise. For every input event sequence, line records whose
/// origin is not one of ' ', '+', '-' never appear in any hunk of the
/// reconstructed document.
pub proof fn lemma_noise_dropped(evs: Seq<DiffEventView>)
    ensures
        doc_noise_free(reconstruct_spec(evs)),
{
    lemma_fold_noise_free(init_state(), evs);
    let st = fold_events(init_state(), evs);
    let closed = attach_hunk_spec(st.cur_item, st.cur_hunk);
    match closed {
        Option::Some(it) => {
            assert(item_noise_free(it)) by {
                match (st.cur_item, st.cur_hunk) {
                    (Option::Some(it0), Option::Some(h0)) => {
                        assert(forall|i: int|
                            0 <= i < it.hunks.len() ==> hunk_noise_free(#[trigger] it.hunks[i]));
                    },
                    _ => {},
                }
            }
            assert(doc_noise_free(st.done.push(it)));
        },
        Option::None => {},
    }
}

fn clone_opt_path(o: &Option<String>) -> (r: Option<String>)
    ensures
        opt_path_view(r) == opt_path_view(*o),
{
    match o {
        Option::Some(s) => Option::Some(s.clone()),
        Option::None => Option::None,
    }
}

fn opt_path_eq(a: &Option<String>, b: &Option<String>) -> (r: bool)
    ensures
        r == (opt_path_view(*a) == opt_path_view(*b)),
{
    match (a, b) {
        (Option::Some(x), Option::Some(y)) => x.eq(y),
        (Option::None, Option::None) => true,
        _ => false,
    }
}

/// Reconstructs a diff document from an ordered event stream.
///
/// This is the pure fold described by `reconstruct_spec`: it maintains at
/// most one current item and one current hunk, closes them at boundaries,
/// drops noise lines, and flushes at the end of the stream. It never fails,
/// whatever the input.
pub fn reconstruct(events: &Vec<DiffEvent>) -> (r: Vec<DiffItem>)
    ensures
        item_views(r@) == reconstruct_spec(event_views(events@)),
{
    let ghost evs = event_views(events@);
    let mut out: Vec<DiffItem> = Vec::new();
    let mut cur_item: Option<DiffItem> = Option::None;
    let mut cur_hunk: Option<Hunk> = Option::None;

    assert(evs.take(0) =~= Seq::<DiffEventView>::empty());
    assert(item_views(out@) =~= Seq::<DiffItemView>::empty());

    let n = events.len();
    let mut i: usize = 0;
    while i < n
        invariant
            n == events.len(),
            i <= n,
            evs == event_views(events@),
            fold_events(init_state(), evs.take(i as int)) == (FoldState {
                done: item_views(out@),
                cur_item: opt_item_view(cur_item),
                cur_hunk: opt_hunk_view(cur_hunk),
            }),
        decreases n - i,
    {
        let ghost prev = fold_events(init_state(), evs.take(i as int));
        proof {
            assert(evs.take(i + 1) =~= evs.take(i as int).push(evs[i as int]));
            lemma_fold_push(init_state(), evs.take(i as int), evs[i as int]);
        }
        match &events[i] {
            DiffEvent::FileHeader(o, n_path) => {
                let same = match &cur_item {
                    Option::Some(it) => opt_path_eq(&it.old_file, o) && opt_path_eq(
                        &it.new_file,
                        n_path,
                    ),
                    Option::None => false,
                };
                if !same {
                    match (cur_item, cur_hunk) {
                        (Option::Some(mut it), Option::Some(h)) => {
                            it.hunks.push(h);
                            assert(it@.hunks =~= attach_hunk_spec(
                                prev.cur_item,
                                prev.cur_hunk,
                            )->Some_0.hunks);
                            out.push(it);
                        },
                        (Option::Some(it), Option::None) => {
                            out.push(it);
                        },
                        (Option::None, _) => {},
                    }
                    cur_hunk = Option::None;
                    cur_item = Option::Some(
                        DiffItem {
                            old_file: clone_opt_path(o),
                            new_file: clone_opt_path(n_path),
                            hunks: Vec::new(),
                        },
                    );
                    assert(item_views(out@) =~= step(prev, evs[i as int]).done);
                    assert(opt_item_view(cur_item)->Some_0 =~= step(
                        prev,
                        evs[i as int],
                    ).cur_item->Some_0);
                }
            },
            DiffEvent::HunkHeader(os, ol, ns, nl) => {
                let same = match &cur_hunk {
                    Option::Some(h) => h.old_start == *os && h.new_start == *ns,
                    Option::None => false,
                };
                if !same {
                    match (cur_item, cur_hunk) {
                        (Option::Some(mut it), Option::Some(h)) => {
                            it.hunks.push(h);
                            assert(it@.hunks =~= attach_hunk_spec(
                                prev.cur_item,
                                prev.cur_hunk,
                            )->Some_0.hunks);
                            cur_item = Option::Some(it);
                        },
                        (it, _) => {
                            cur_item = it;
                        },
                    }
                    cur_hunk = Option::Some(
                        Hunk {
                            old_start: *os,
                            old_lines: *ol,
                            new_start: *ns,
                            new_lines: *nl,
                            lines: Vec::new(),
                        },
                    );
                    assert(opt_hunk_view(cur_hunk)->Some_0 =~= step(
                        prev,
                        evs[i as int],
                    ).cur_hunk->Some_0);
                }
            },
            DiffEvent::LineRecord(c, s) => {
                let ok = *c == ' ' || *c == '+' || *c == '-';
                if ok {
                    match cur_hunk {
                        Option::Some(mut h) => {
                            h.lines.push(LineChange { origin: *c, content: s.clone() });
                            assert(h@.lines =~= prev.cur_hunk->Some_0.lines.push(
                                LineChangeView { origin: *c, content: s@ },
                            ));
                            cur_hunk = Option::Some(h);
                        },
                        Option::None => {
                            cur_hunk = Option::None;
                        },
                    }
                }
            },
        }
        i = i + 1;
        assert(fold_events(init_state(), evs.take(i as int)) =~~= (FoldState {
            done: item_views(out@),
            cur_item: opt_item_view(cur_item),
            cur_hunk: opt_hunk_view(cur_hunk),
        }));
    }

    proof {
        assert(evs.take(n as int) =~= evs);
    }
    let ghost last = fold_events(init_state(), evs);
    match (cur_item, cur_hunk) {
        (Option::Some(mut it), Option::Some(h)) => {
            it.hunks.push(h);
            assert(it@.hunks =~= attach_hunk_spec(last.cur_item, last.cur_hunk)->Some_0.hunks);
            out.push(it);
        },
        (Option::Some(it), Option::None) => {
            out.push(it);
        },
        (Option::None, _) => {},
    }
    assert(item_views(out@) =~= reconstruct_spec(evs));
    out
}

} // verus!

//! Unified-diff text rendering.
//!
//! A diff document renders as unified-diff text, byte for byte: per file a
//! `--- a/` line for the old path (omitted when absent) and a `+++ b/` line
//! for the new path (omitted when absent), per hunk an `@@` header line,
//! then one line per line change, the origin character directly followed by
//! the raw content.

use crate::diff::accepted_origin;
use crate::diff::doc_noise_free;
use crate::diff::hunk_noise_free;
use crate::diff::item_noise_free;
use crate::diff::item_views;
use crate::diff::DiffItem;
use crate::diff::DiffItemView;
use crate::diff::Hunk;
use crate::diff::HunkView;
use crate::diff::LineChange;
use crate::diff::LineChangeView;
use vstd::prelude::*;

verus! {

/// The decimal digit character for one value below ten.
pub open spec fn dec_digit(d: nat) -> char {
    if d == 0 {
        '0'
    } else if d == 1 {
        '1'
    } else if d == 2 {
        '2'
    } else if d == 3 {
        '3'
    } else if d == 4 {
        '4'
    } else if d == 5 {
        '5'
    } else if d == 6 {
        '6'
    } else if d == 7 {
        '7'
    } else if d == 8 {
        '8'
    } else {
        '9'
    }
}

/// The decimal representation of a number, most significant digit first,
/// without leading zeros (a single zero for zero).
pub open spec fn dec_rep(n: nat) -> Seq<char>
    decreases n,
{
    if n < 10 {
        seq![dec_digit(n)]
    } else {
        dec_rep(n / 10).push(dec_digit(n % 10))
    }
}

/// One rendered line change: the origin character directly followed by the
/// raw content.
pub open spec fn render_line_spec(lc: LineChangeView) -> Seq<char> {
    seq![lc.origin] + lc.content
}

/// The rendered line changes of one hunk, in order.
pub open spec fn render_lines_spec(lines: Seq<LineChangeView>) -> Seq<char>
    decreases lines.len(),
{
    if lines.len() == 0 {
        Seq::empty()
    } else {
        render_lines_spec(lines.drop_last()) + render_line_spec(lines.last())
    }
}

/// One hunk's header line.
pub open spec fn hunk_header_spec(h: HunkView) -> Seq<char> {
    "@@ -"@ + dec_rep(h.old_start) + ","@ + dec_rep(h.old_lines) + " +"@ + dec_rep(h.new_start)
        + ","@ + dec_rep(h.new_lines) + " @@\n"@
}

/// One rendered hunk: its header line, then its line changes.
pub open spec fn render_hunk_spec(h: HunkView) -> Seq<char> {
    hunk_header_spec(h) + render_lines_spec(h.lines)
}

/// The rendered hunks of one diff item, in order.
pub open spec fn render_hunks_spec(hs: Seq<HunkView>) -> Seq<char>
    decreases hs.len(),
{
    if hs.len() == 0 {
        Seq::empty()
    } else {
        render_hunks_spec(hs.drop_last()) + render_hunk_spec(hs.last())
    }
}

/// One rendered diff item: the old-path line when an old path is present,
/// the new-path line when a new path is present, then the hunks.
pub open spec fn render_item_spec(it: DiffItemView) -> Seq<char> {
    (match it.old_file {
        Option::Some(p) => "--- a/"@ + p + "\n"@,
        Option::None => Seq::empty(),
    }) + (match it.new_file {
        Option::Some(p) => "+++ b/"@ + p + "\n"@,
        Option::None => Seq::empty(),
    }) + render_hunks_spec(it.hunks)
}

/// The whole rendered document, item by item.
pub open spec fn render_doc_spec(doc: Seq<DiffItemView>) -> Seq<char>
    decreases doc.len(),
{
    if doc.len() == 0 {
        Seq::empty()
    } else {
        render_doc_spec(doc.drop_last()) + render_item_spec(doc.last())
    }
}

fn digit_str(d: usize) -> (r: String)
    requires
        d < 10,
    ensures
        r@ == seq![dec_digit(d as nat)],
{
    proof {
        reveal_strlit("0");
        reveal_strlit("1");
        reveal_strlit("2");
        reveal_strlit("3");
        reveal_strlit("4");
        reveal_strlit("5");
        reveal_strlit("6");
        reveal_strlit("7");
        reveal_strlit("8");
        reveal_strlit("9");
    }
    let r = if d == 0 {
        String::from_str("0")
    } else if d == 1 {
        String::from_str("1")
    } else if d == 2 {
        String::from_str("2")
    } else if d == 3 {
        String::from_str("3")
    } else if d == 4 {
        String::from_str("4")
    } else if d == 5 {
        String::from_str("5")
    } else if d == 6 {
        String::from_str("6")
    } else if d == 7 {
        String::from_str("7")
    } else if d == 8 {
        String::from_str("8")
    } else {
        String::from_str("9")
    };
    proof {
        assert(r@ =~= seq![dec_digit(d as nat)]);
    }
    r
}

/// Writes a number in decimal.
pub fn usize_to_dec(n: usize) -> (r: String)
    ensures
        r@ == dec_rep(n as nat),
    decreases n,
{
    if n < 10 {
        digit_str(n)
    } else {
        let pre = usize_to_dec(n / 10);
        let last = digit_str(n % 10);
        let r = pre.concat(last.as_str());
        proof {
            assert(r@ =~= dec_rep((n / 10) as nat).push(dec_digit((n % 10) as nat)));
        }
        r
    }
}

fn origin_str(c: char) -> (r: String)
    requires
        accepted_origin(c),
    ensures
        r@ == seq![c],
{
    proof {
        reveal_strlit(" ");
        reveal_strlit("+");
        reveal_strlit("-");
    }
    let r = if c == ' ' {
        String::from_str(" ")
    } else if c == '+' {
        String::from_str("+")
    } else {
        String::from_str("-")
    };
    proof {
        assert(r@ =~= seq![c]);
    }
    r
}

impl LineChange {
    /// Renders this line change as unified-diff text: the origin character
    /// directly followed by the raw content.
    pub fn to_unified(&self) -> (r: String)
        requires
            accepted_origin(self.origin),
        ensures
            r@ == render_line_spec(self@),
    {
        let r = origin_str(self.origin).concat(self.content.as_str());
        proof {
            assert(r@ =~= render_line_spec(self@));
        }
        r
    }
}

impl Hunk {
    /// Renders this hunk as unified-diff text: the `@@` header line, then
    /// each line change in order.
    pub fn to_unified(&self) -> (r: String)
        requires
            hunk_noise_free(self@),
        ensures
            r@ == render_hunk_spec(self@),
    {
        let mut r = String::from_str("@@ -");
        r.append(usize_to_dec(self.old_start).as_str());
        r.append(",");
        r.append(usize_to_dec(self.old_lines).as_str());
        r.append(" +");
        r.append(usize_to_dec(self.new_start).as_str());
        r.append(",");
        r.append(usize_to_dec(self.new_lines).as_str());
        r.append(" @@\n");
        proof {
            assert(r@ =~= hunk_header_spec(self@));
        }
        let ghost lines = self@.lines;
        let n = self.lines.len();
        let mut i: usize = 0;
        proof {
            assert(render_lines_spec(lines.take(0)) =~= Seq::<char>::empty());
            assert(r@ =~= hunk_header_spec(self@) + render_lines_spec(lines.take(0)));
        }
        while i < n
            invariant
                n == self.lines.len(),
                i <= n,
                lines == self@.lines,
                hunk_noise_free(self@),
                r@ == hunk_header_spec(self@) + render_lines_spec(lines.take(i as int)),
            decreases n - i,
        {
            assert(accepted_origin(self.lines[i as int].origin)) by {
                assert(lines[i as int] == self.lines[i as int]@);
            }
            let line = self.lines[i].to_unified();
            r.append(line.as_str());
            proof {
                assert(lines.take(i + 1).drop_last() =~= lines.take(i as int));
                assert(lines.take(i + 1).last() == lines[i as int]);
                assert(r@ =~= hunk_header_spec(self@) + render_lines_spec(lines.take(i + 1)));
            }
            i = i + 1;
        }
        proof {
            assert(lines.take(n as int) =~= lines);
        }
        r
    }
}

impl DiffItem {
    /// Renders this diff item as unified-diff text: the path header lines
    /// (each omitted when its path is absent), then each hunk in order.
    pub fn to_unified(&self) -> (r: String)
        requires
            item_noise_free(self@),
        ensures
            r@ == render_item_spec(self@),
    {
        let mut r = String::new();
        match &self.old_file {
            Option::Some(p) => {
                r.append("--- a/");
                r.append(p.as_str());
                r.append("\n");
            },
            Option::None => {},
        }
        match &self.new_file {
            Option::Some(p) => {
                r.append("+++ b/");
                r.append(p.as_str());
                r.append("\n");
            },
            Option::None => {},
        }
        let ghost headers = (match self@.old_file {
            Option::Some(p) => "--- a/"@ + p + "\n"@,
            Option::None => Seq::<char>::empty(),
        }) + (match self@.new_file {
            Option::Some(p) => "+++ b/"@ + p + "\n"@,
            Option::None => Seq::<char>::empty(),
        });
        proof {
            assert(r@ =~= headers);
        }
        let ghost hunks = self@.hunks;
        let n = self.hunks.len();
        let mut i: usize = 0;
        proof {
            assert(render_hunks_spec(hunks.take(0)) =~= Seq::<char>::empty());
            assert(r@ =~= headers + render_hunks_spec(hunks.take(0)));
        }
        while i < n
            invariant
                n == self.hunks.len(),
                i <= n,
                hunks == self@.hunks,
                item_noise_free(self@),
                r@ == headers + render_hunks_spec(hunks.take(i as int)),
            decreases n - i,
        {
            assert(hunk_noise_free(self.hunks[i as int]@)) by {
                assert(hunks[i as int] == self.hunks[i as int]@);
            }
            let hunk_text = self.hunks[i].to_unified();
            r.append(hunk_text.as_str());
            proof {
                assert(hunks.take(i + 1).drop_last() =~= hunks.take(i as int));
                assert(hunks.take(i + 1).last() == hunks[i as int]);
                assert(r@ =~= headers + render_hunks_spec(hunks.take(i + 1)));
            }
            i = i + 1;
        }
        proof {
            assert(hunks.take(n as int) =~= hunks);
            assert(r@ =~= render_item_spec(self@));
        }
        r
    }
}

/// Renders a whole diff document as unified-diff text, item by item.
pub fn render_document(doc: &Vec<DiffItem>) -> (r: String)
    requires
        doc_noise_free(item_views(doc@)),
    ensures
        r@ == render_doc_spec(item_views(doc@)),
{
    let ghost items = item_views(doc@);
    let mut r = String::new();
    let n = doc.len();
    let mut i: usize = 0;
    proof {
        assert(render_doc_spec(items.take(0)) =~= Seq::<char>::empty());
        assert(r@ =~= render_doc_spec(items.take(0)));
    }
    while i < n
        invariant
            n == doc.len(),
            i <= n,
            items == item_views(doc@),
            doc_noise_free(items),
            r@ == render_doc_spec(items.take(i as int)),
        decreases n - i,
    {
        assert(item_noise_free(doc[i as int]@)) by {
            assert(items[i as int] == doc[i as int]@);
        }
        let item_text = doc[i].to_unified();
        r.append(item_text.as_str());
        proof {
            assert(items.take(i + 1).drop_last() =~= items.take(i as int));
            assert(items.take(i + 1).last() == items[i as int]);
            assert(r@ =~= render_doc_spec(items.take(i + 1)));
        }
        i = i + 1;
    }
    proof {
        assert(items.take(n as int) =~= items);
    }
    r
}

} // verus!

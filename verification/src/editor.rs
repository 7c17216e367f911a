//! The reflow orchestrator: owns the wrapped segment list and the cursor,
//! drives one full cycle per incoming command — edit, merge, re-wrap,
//! relocate — and replaces the published list and cursor only after the
//! new ones are fully computed.

use vstd::prelude::*;

use crate::edit::{mut_backspace, mut_new_line, mut_type};
use crate::merge::clone_chars;
use crate::model::{
    canonical, concat_texts, doc_chars, lemma_concat_merged, lemma_line_le_doc,
    lemma_offset_bound, line_ordinal, line_start, merged, no_empty_middles, offset_of, texts,
    vsegs, Cursor, GlyphTable, SegView, Segment, TempCursor, WrapError,
};
use crate::reflow::{
    covers_lines, create_wrapped_buffer, lemma_reflow_locate, lemma_reflow_shape, reflow_cursor,
    reflow_segs,
};

verus! {

/// One incoming command, in the order user input occurred.
#[derive(Clone, Copy, Debug, PartialEq, Eq, Structural)]
pub enum KeyCommand {
    Left,
    Right,
    Back,
    Value(char),
    NewLine,
    Size(u64, u64),
    Idle,
}

/// The viewport size the wrapper works against; only the width bounds a
/// line, the height is carried along for the renderer.
#[derive(Clone, Copy, Debug, PartialEq, Eq, Structural)]
pub struct BorderSize {
    pub width: u64,
    pub height: u64,
}

/// The orchestrator's state: the published wrapped view, the cursor, and
/// the current width budget.
pub struct EditorState {
    pub rows: Vec<Segment>,
    pub cursor: Cursor,
    pub border: BorderSize,
}

/// A deep copy of the wrapped list, so a failing cycle can leave the
/// published state untouched.
fn clone_rows(rows: &Vec<Segment>) -> (r: Vec<Segment>)
    ensures
        vsegs(r@) == vsegs(rows@),
        r@.len() == rows@.len(),
        forall|i: int|
            0 <= i < rows@.len() ==> (#[trigger] r@[i]).text@ == rows@[i].text@
                && r@[i].continuation == rows@[i].continuation && r@[i].owner == rows@[i].owner,
{
    let mut r: Vec<Segment> = Vec::new();
    let mut i: usize = 0;
    while i < rows.len()
        invariant
            0 <= i <= rows@.len(),
            r@.len() == i,
            forall|k: int|
                0 <= k < i ==> (#[trigger] r@[k]).text@ == rows@[k].text@ && r@[k].continuation
                    == rows@[k].continuation && r@[k].owner == rows@[k].owner,
        decreases rows@.len() - i,
    {
        let seg = Segment {
            text: clone_chars(&rows[i].text),
            continuation: rows[i].continuation,
            owner: rows[i].owner,
        };
        r.push(seg);
        i = i + 1;
    }
    proof {
        assert(vsegs(r@) =~= vsegs(rows@));
    }
    r
}

/// Everything the reflow pass guarantees about the snapshot it hands
/// back, said once for all commands.
proof fn lemma_commit(t: GlyphTable, lines1: Seq<Seq<char>>, w: u64, a: int, d: int, n: int)
    requires
        lines1.len() >= 1,
        0 <= a < lines1.len(),
        0 <= d <= lines1[a].len(),
        concat_texts(lines1).len() <= usize::MAX,
        reflow_segs(t, lines1, w).len() == n,
        n <= usize::MAX,
    ensures
        ({
            let segs = reflow_segs(t, lines1, w);
            let c = reflow_cursor(t, lines1, w, a, d);
            &&& canonical(segs)
            &&& no_empty_middles(segs)
            &&& doc_chars(segs) <= usize::MAX
            &&& merged(segs) == lines1
            &&& (c.y as int) < segs.len()
            &&& c.x as int <= segs[c.y as int].text.len()
            &&& (c.x == 0 ==> !segs[c.y as int].continuation)
            &&& line_ordinal(segs, c.y as int) == a
            &&& offset_of(segs, c.y as int, c.x as int) == d
        }),
{
    lemma_reflow_shape(t, lines1, w);
    lemma_line_le_doc(lines1, a);
    lemma_reflow_locate(t, lines1, w, a, d);
}

/// Replacing the text of the cursor's segment on a working copy: what it
/// does to the merged lines, and how the cursor's line, offset, and the
/// document size carry over.
proof fn lemma_text_edit_bridge(segs0: Seq<SegView>, y0: int, x0: int, t2: Seq<char>, xn: int)
    requires
        segs0.len() > 0,
        !segs0[0].continuation,
        0 <= y0 < segs0.len(),
        0 <= x0 <= segs0[y0].text.len(),
        0 <= xn <= t2.len(),
    ensures
        ({
            let wsegs = segs0.update(y0, SegView { text: t2, ..segs0[y0] });
            let a0 = line_ordinal(segs0, y0);
            let p = concat_texts(texts(segs0.subrange(crate::model::line_start(segs0, y0), y0)));
            let q = concat_texts(
                texts(segs0.subrange(y0 + 1, crate::model::line_end(segs0, y0))),
            );
            &&& !wsegs[0].continuation
            &&& line_ordinal(wsegs, y0) == a0
            &&& offset_of(wsegs, y0, xn) == p.len() + xn
            &&& offset_of(segs0, y0, x0) == p.len() + x0
            &&& merged(wsegs) == merged(segs0).update(a0, p + t2 + q)
            &&& merged(segs0)[a0] == p + segs0[y0].text + q
            &&& doc_chars(wsegs) == doc_chars(segs0) - segs0[y0].text.len() + t2.len()
            &&& 0 <= offset_of(wsegs, y0, xn) <= doc_chars(wsegs)
            &&& merged(wsegs).len() == merged(segs0).len()
        }),
{
    let wsegs = segs0.update(y0, SegView { text: t2, ..segs0[y0] });
    crate::model::lemma_merged_at(segs0, y0);
    crate::model::lemma_merged_update_text(segs0, y0, t2);
    let s = crate::model::line_start(segs0, y0);
    crate::model::lemma_line_start_props(segs0, y0);
    assert(wsegs.subrange(s, y0) =~= segs0.subrange(s, y0));
    crate::model::lemma_doc_chars_update_text(segs0, y0, t2);
    lemma_offset_bound(wsegs, y0, xn);
}

/// How the merged-back list indexes into the list it came from: the
/// prefix is untouched, the join segment carries both texts, the removed
/// line's continuations follow it re-owned, and the rest just shifts.
proof fn lemma_delete_line_index(segs0: Seq<SegView>, y0: int)
    requires
        1 <= y0 < segs0.len(),
    ensures
        ({
            let e = crate::model::line_end(segs0, y0);
            let w1 = crate::model::delete_line_segs(segs0, y0);
            &&& w1.len() == segs0.len() - 1
            &&& forall|k: int| 0 <= k < y0 - 1 ==> #[trigger] w1[k] == segs0[k]
            &&& w1[y0 - 1] == (SegView {
                text: segs0[y0 - 1].text + segs0[y0].text,
                ..segs0[y0 - 1]
            })
            &&& forall|k: int|
                y0 <= k < e - 1 ==> (#[trigger] w1[k]).continuation == segs0[k + 1].continuation
                    && w1[k].text == segs0[k + 1].text && w1[k].owner == segs0[y0 - 1].owner
            &&& forall|k: int| e - 1 <= k < w1.len() ==> #[trigger] w1[k] == segs0[k + 1]
        }),
{
    let e = crate::model::line_end(segs0, y0);
    let w1 = crate::model::delete_line_segs(segs0, y0);
    crate::model::lemma_line_end_props(segs0, y0);
    assert forall|k: int| 0 <= k < y0 - 1 implies #[trigger] w1[k] == segs0[k] by {
        assert(segs0.remove(y0)[k] == segs0[k]);
    }
    assert(segs0.remove(y0)[y0 - 1] == segs0[y0 - 1]);
    assert forall|k: int|
        y0 <= k < e - 1 implies (#[trigger] w1[k]).continuation == segs0[k + 1].continuation
        && w1[k].text == segs0[k + 1].text && w1[k].owner == segs0[y0 - 1].owner by {
        assert(segs0.remove(y0)[k] == segs0[k + 1]);
    }
    assert forall|k: int| e - 1 <= k < w1.len() implies #[trigger] w1[k] == segs0[k + 1] by {
        assert(segs0.remove(y0)[k] == segs0[k + 1]);
    }
}

/// A merged line is its first segment's text plus its continuations'.
proof fn lemma_line_text_split(segs0: Seq<SegView>, y0: int)
    requires
        segs0.len() > 0,
        !segs0[0].continuation,
        0 <= y0 < segs0.len(),
        !segs0[y0].continuation,
    ensures
        ({
            let e = crate::model::line_end(segs0, y0);
            merged(segs0)[line_ordinal(segs0, y0)] == segs0[y0].text + concat_texts(
                texts(segs0.subrange(y0 + 1, e)),
            )
        }),
{
    let e = crate::model::line_end(segs0, y0);
    let ty = segs0[y0].text;
    crate::model::lemma_line_end_props(segs0, y0);
    crate::model::lemma_merged_at(segs0, y0);
    assert(line_start(segs0, y0) == y0);
    assert(segs0.subrange(y0, e) =~= seq![segs0[y0]] + segs0.subrange(y0 + 1, e));
    assert(texts(seq![segs0[y0]] + segs0.subrange(y0 + 1, e)) =~= seq![ty] + texts(
        segs0.subrange(y0 + 1, e),
    ));
    crate::model::lemma_concat_append(seq![ty], texts(segs0.subrange(y0 + 1, e)));
    assert(seq![ty].drop_last() =~= Seq::<Seq<char>>::empty());
    assert(concat_texts(Seq::<Seq<char>>::empty()) == Seq::<char>::empty());
    assert(concat_texts(seq![ty]) =~= ty);
}

/// Pure splice arithmetic: deleting the character at the join point of
/// two texts is dropping the first text's last character.
proof fn lemma_splice_drop(pp: Seq<char>, lt: Seq<char>, ty: Seq<char>, tail: Seq<char>)
    requires
        lt.len() > 0,
    ensures
        pp + ((lt + ty).remove(lt.len() - 1)) + tail == ((pp + lt).drop_last()) + (ty + tail),
        (lt + ty).remove(lt.len() - 1).len() == lt.len() + ty.len() - 1,
{
    assert((lt + ty).remove(lt.len() - 1) =~= lt.drop_last() + ty);
    assert(pp + (lt.drop_last() + ty) + tail =~= ((pp + lt).drop_last()) + (ty + tail));
}

/// What merging a line back into its predecessor does to the merged
/// lines, and where the cursor's landing position sits afterwards: at the
/// end of the predecessor's old text, with the whole of the removed line
/// spliced on behind it.
#[verifier::rlimit(100)]
#[verifier::spinoff_prover]
proof fn lemma_back_merge_bridge(segs0: Seq<SegView>, y0: int)
    requires
        canonical(segs0),
        no_empty_middles(segs0),
        1 <= y0 < segs0.len(),
        !segs0[y0].continuation,
    ensures
        ({
            let e = crate::model::line_end(segs0, y0);
            let a0 = line_ordinal(segs0, y0);
            let lines = merged(segs0);
            let tail = concat_texts(texts(segs0.subrange(y0 + 1, e)));
            let prev = lines[a0 - 1];
            let w1 = crate::model::delete_line_segs(segs0, y0);
            let sp = crate::model::line_start(segs0, y0 - 1);
            let pp = concat_texts(texts(segs0.subrange(sp, y0 - 1)));
            let lt = segs0[y0 - 1].text;
            &&& 1 <= a0 < lines.len()
            &&& merged(w1) == lines.remove(a0).update(a0 - 1, prev + lines[a0])
            &&& merged(w1).len() == lines.len() - 1
            &&& w1.len() == segs0.len() - 1
            &&& crate::model::wf(w1)
            &&& w1[y0 - 1] == (SegView { text: lt + segs0[y0].text, ..segs0[y0 - 1] })
            &&& prev == pp + lt
            &&& lines[a0] == segs0[y0].text + tail
            &&& line_ordinal(w1, y0 - 1) == a0 - 1
            &&& crate::model::line_start(w1, y0 - 1) == sp
            &&& concat_texts(texts(w1.subrange(sp, y0 - 1))) == pp
            &&& offset_of(w1, y0 - 1, 0) == pp.len()
            &&& (lt.len() == 0 ==> prev.len() == 0)
            &&& crate::model::line_end(w1, y0 - 1) == e - 1
            &&& concat_texts(texts(w1.subrange(y0, e - 1))) == tail
            &&& doc_chars(w1) == doc_chars(segs0)
        }),
{
    let e = crate::model::line_end(segs0, y0);
    let a0 = line_ordinal(segs0, y0);
    let lines = merged(segs0);
    let w1 = crate::model::delete_line_segs(segs0, y0);
    let sp = crate::model::line_start(segs0, y0 - 1);
    let lt = segs0[y0 - 1].text;
    crate::model::lemma_line_end_props(segs0, y0);
    crate::model::lemma_merged_delete_line(segs0, y0);
    crate::edit::lemma_delete_line_wf(segs0, y0);
    lemma_delete_line_index(segs0, y0);
    lemma_line_text_split(segs0, y0);
    // the cursor's line keeps its start and its position in the list
    crate::model::lemma_line_start_props(segs0, y0 - 1);
    crate::model::lemma_line_start_flags(segs0, w1, y0 - 1);
    assert(w1.take(sp) =~= segs0.take(sp));
    assert(line_start(segs0, y0) == y0);
    assert(segs0.take(y0) =~= segs0.take(sp) + segs0.subrange(sp, y0));
    crate::model::lemma_count_starts_append(segs0.take(sp), segs0.subrange(sp, y0));
    crate::model::lemma_count_starts_one_group(segs0.subrange(sp, y0));
    // the predecessor's merged text
    crate::model::lemma_merged_at(segs0, y0 - 1);
    crate::model::lemma_line_end_in_group(segs0, y0 - 1, y0);
    assert(segs0.subrange(sp, y0) =~= segs0.subrange(sp, y0 - 1).push(segs0[y0 - 1]));
    assert(texts(segs0.subrange(sp, y0)) =~= texts(segs0.subrange(sp, y0 - 1)).push(lt));
    crate::model::lemma_concat_push(texts(segs0.subrange(sp, y0 - 1)), lt);
    assert(w1.subrange(sp, y0 - 1) =~= segs0.subrange(sp, y0 - 1));
    if lt.len() == 0 {
        assert(!segs0[y0 - 1].continuation);
        assert(sp == y0 - 1);
        assert(segs0.subrange(sp, y0 - 1) =~= Seq::<SegView>::empty());
        assert(texts(Seq::<SegView>::empty()) =~= Seq::<Seq<char>>::empty());
        assert(concat_texts(Seq::<Seq<char>>::empty()) == Seq::<char>::empty());
    }
    // the rest of the removed line follows directly
    crate::model::lemma_line_end_in_group(w1, y0 - 1, e - 1);
    assert(texts(w1.subrange(y0, e - 1)) =~= texts(segs0.subrange(y0 + 1, e)));
    crate::model::lemma_doc_chars_delete_line(segs0, y0);
}

/// The back-merge edit when the previous line ends in a character: the
/// line merge followed by deleting that character.
#[verifier::rlimit(100)]
#[verifier::spinoff_prover]
proof fn lemma_back_merge_pos(segs0: Seq<SegView>, y0: int)
    requires
        canonical(segs0),
        no_empty_middles(segs0),
        1 <= y0 < segs0.len(),
        !segs0[y0].continuation,
        segs0[y0 - 1].text.len() > 0,
    ensures
        ({
            let a0 = line_ordinal(segs0, y0);
            let lines = merged(segs0);
            let prev = lines[a0 - 1];
            let w1 = crate::model::delete_line_segs(segs0, y0);
            let lt = segs0[y0 - 1].text;
            let lines1 = lines.remove(a0).update(a0 - 1, prev.drop_last() + lines[a0]);
            let wfin = w1.update(
                y0 - 1,
                SegView { text: (lt + segs0[y0].text).remove(lt.len() - 1), ..w1[y0 - 1] },
            );
            &&& 1 <= a0 < lines.len()
            &&& prev.len() >= lt.len()
            &&& w1.len() == segs0.len() - 1
            &&& w1[y0 - 1].text == lt + segs0[y0].text
            &&& !wfin[0].continuation
            &&& wfin.len() == segs0.len() - 1
            &&& lt.len() - 1 <= wfin[y0 - 1].text.len()
            &&& merged(wfin) == lines1
            &&& lines1.len() == lines.len() - 1
            &&& line_ordinal(wfin, y0 - 1) == a0 - 1
            &&& offset_of(wfin, y0 - 1, lt.len() - 1) == prev.len() - 1
            &&& 0 <= offset_of(wfin, y0 - 1, lt.len() - 1) <= doc_chars(wfin)
            &&& doc_chars(wfin) <= doc_chars(segs0)
            &&& prev.len() - 1 <= lines1[a0 - 1].len()
            &&& concat_texts(lines1).len() == doc_chars(wfin)
        }),
{
    lemma_back_merge_bridge(segs0, y0);
    let e = crate::model::line_end(segs0, y0);
    let a0 = line_ordinal(segs0, y0);
    let lines = merged(segs0);
    let tail = concat_texts(texts(segs0.subrange(y0 + 1, e)));
    let prev = lines[a0 - 1];
    let w1 = crate::model::delete_line_segs(segs0, y0);
    let sp = crate::model::line_start(segs0, y0 - 1);
    let pp = concat_texts(texts(segs0.subrange(sp, y0 - 1)));
    let lt = segs0[y0 - 1].text;
    let ty = segs0[y0].text;
    let t2 = (lt + ty).remove(lt.len() - 1);
    let wfin = w1.update(y0 - 1, SegView { text: t2, ..w1[y0 - 1] });
    lemma_text_edit_bridge(w1, y0 - 1, lt.len() as int, t2, lt.len() - 1);
    lemma_splice_drop(pp, lt, ty, tail);
    assert(merged(w1)[a0 - 1] == prev + lines[a0]);
    assert(merged(w1)[a0 - 1] == pp + (lt + ty) + tail);
    assert(pp + t2 + tail == prev.drop_last() + lines[a0]);
    assert(merged(wfin) == merged(w1).update(a0 - 1, pp + t2 + tail));
    assert(merged(wfin) =~= lines.remove(a0).update(a0 - 1, prev.drop_last() + lines[a0]));
    assert(offset_of(wfin, y0 - 1, lt.len() - 1) == pp.len() + lt.len() - 1);
    lemma_concat_merged(wfin);
}

/// The back-merge edit when the previous line is empty: the line merge
/// alone, with nothing left to delete.
#[verifier::rlimit(100)]
proof fn lemma_back_merge_zero(segs0: Seq<SegView>, y0: int)
    requires
        canonical(segs0),
        no_empty_middles(segs0),
        1 <= y0 < segs0.len(),
        !segs0[y0].continuation,
        segs0[y0 - 1].text.len() == 0,
    ensures
        ({
            let a0 = line_ordinal(segs0, y0);
            let lines = merged(segs0);
            let prev = lines[a0 - 1];
            let w1 = crate::model::delete_line_segs(segs0, y0);
            let lines1 = lines.remove(a0).update(a0 - 1, prev + lines[a0]);
            &&& 1 <= a0 < lines.len()
            &&& prev.len() == 0
            &&& w1.len() == segs0.len() - 1
            &&& !w1[0].continuation
            &&& merged(w1) == lines1
            &&& lines1.len() == lines.len() - 1
            &&& line_ordinal(w1, y0 - 1) == a0 - 1
            &&& offset_of(w1, y0 - 1, 0) == 0
            &&& doc_chars(w1) <= doc_chars(segs0)
            &&& concat_texts(lines1).len() == doc_chars(w1)
        }),
{
    lemma_back_merge_bridge(segs0, y0);
    let a0 = line_ordinal(segs0, y0);
    let w1 = crate::model::delete_line_segs(segs0, y0);
    lemma_concat_merged(w1);
}

impl EditorState {
    /// The published state is always a fully reflowed, internally
    /// consistent snapshot: a canonical wrapped view with the cursor on a
    /// real position, at column 0 only on a line start.
    pub open spec fn wf(&self) -> bool {
        &&& canonical(vsegs(self.rows@))
        &&& (self.cursor.y as int) < self.rows@.len()
        &&& self.cursor.x as int <= self.rows@[self.cursor.y as int].text@.len()
        &&& (self.cursor.x == 0 ==> !self.rows@[self.cursor.y as int].continuation)
        &&& no_empty_middles(vsegs(self.rows@))
        &&& doc_chars(vsegs(self.rows@)) <= usize::MAX
    }

    /// The document's logical lines.
    pub open spec fn lines(&self) -> Seq<Seq<char>> {
        merged(vsegs(self.rows@))
    }

    /// Which logical line the cursor is on.
    pub open spec fn cursor_line(&self) -> int {
        line_ordinal(vsegs(self.rows@), self.cursor.y as int)
    }

    /// The cursor's character offset within its logical line.
    pub open spec fn cursor_offset(&self) -> int {
        offset_of(vsegs(self.rows@), self.cursor.y as int, self.cursor.x as int)
    }

    /// A fresh document: one empty line, the cursor at its start.
    pub fn new() -> (r: EditorState)
        ensures
            r.wf(),
            r.lines() == seq![Seq::<char>::empty()],
            r.cursor == (Cursor { x: 0, y: 0 }),
            r.border == (BorderSize { width: 0, height: 0 }),
    {
        let mut rows: Vec<Segment> = Vec::new();
        rows.push(Segment { text: Vec::new(), continuation: false, owner: 0 });
        let r = EditorState {
            rows,
            cursor: Cursor { x: 0, y: 0 },
            border: BorderSize { width: 0, height: 0 },
        };
        proof {
            let segs = vsegs(r.rows@);
            assert(segs.len() == 1);
            assert(segs[0] == r.rows@[0]@);
            assert(segs.drop_last() =~= Seq::<SegView>::empty());
            assert(merged(Seq::<SegView>::empty()) == Seq::<Seq<char>>::empty());
            assert(r.lines() =~= seq![Seq::<char>::empty()]);
            assert(texts(segs) =~= seq![Seq::<char>::empty()]);
            assert(texts(segs).drop_last() =~= Seq::<Seq<char>>::empty());
            assert(concat_texts(Seq::<Seq<char>>::empty()) == Seq::<char>::empty());
        }
        r
    }

    /// Cursor-left by one character, then a reflow of the unchanged text.
    #[verifier::rlimit(60)]
    fn do_left(&mut self, table: &GlyphTable) -> (r: Result<(), WrapError>)
        requires
            old(self).wf(),
            old(self).cursor.x >= 1,
        ensures
            final(self).wf(),
            final(self).border == old(self).border,
            r is Err ==> *final(self) == *old(self) && r->Err_0 == WrapError::MissingGlyphMetric,
            r is Ok <==> covers_lines(*table, old(self).lines()),
            r is Ok ==> vsegs(final(self).rows@) == reflow_segs(
                *table,
                old(self).lines(),
                old(self).border.width,
            ) && final(self).cursor == reflow_cursor(
                *table,
                old(self).lines(),
                old(self).border.width,
                old(self).cursor_line(),
                old(self).cursor_offset() - 1,
            ),
    {
        let ghost segs0 = vsegs(old(self).rows@);
        let ghost t = *table;
        let ghost lines = merged(segs0);
        let ghost y0 = old(self).cursor.y as int;
        let ghost a0 = old(self).cursor_line();
        let ghost d0 = old(self).cursor_offset();
        proof {
            assert(segs0[y0] == self.rows@[y0]@);
            assert(segs0[0] == self.rows@[0]@);
            lemma_offset_bound(segs0, y0, old(self).cursor.x as int);
            crate::model::lemma_offset_le_line(segs0, y0, old(self).cursor.x as int);
            crate::model::lemma_merged_at(segs0, y0);
            lemma_concat_merged(segs0);
        }
        let moved = Cursor { x: self.cursor.x - 1, y: self.cursor.y };
        let temp = TempCursor { x: 0, y: 0 };
        let res = create_wrapped_buffer(&self.rows, table, self.border.width, &moved, &temp);
        match res {
            Ok(p) => {
                let nrows = p.0;
                let ncur = p.1;
                let m = nrows.len();
                proof {
                    assert(offset_of(segs0, y0, moved.x as int) == d0 - 1);
                    lemma_commit(t, lines, self.border.width, a0, d0 - 1, m as int);
                }
                self.rows = nrows;
                self.cursor = ncur;
                proof {
                    let segs = vsegs(self.rows@);
                    assert(segs[self.cursor.y as int] == self.rows@[self.cursor.y as int]@);
                }
                Ok(())
            },
            Err(e) => Err(e),
        }
    }

    /// A width-budget change: no text edit, a reflow against the new
    /// width, and the new border committed with the new snapshot.
    #[verifier::rlimit(60)]
    fn do_size(&mut self, table: &GlyphTable, nw: u64, nh: u64) -> (r: Result<(), WrapError>)
        requires
            old(self).wf(),
        ensures
            final(self).wf(),
            r is Err ==> *final(self) == *old(self) && r->Err_0 == WrapError::MissingGlyphMetric,
            r is Ok <==> covers_lines(*table, old(self).lines()),
            r is Ok ==> vsegs(final(self).rows@) == reflow_segs(*table, old(self).lines(), nw)
                && final(self).cursor == reflow_cursor(
                *table,
                old(self).lines(),
                nw,
                old(self).cursor_line(),
                old(self).cursor_offset(),
            ) && final(self).border == (BorderSize { width: nw, height: nh }),
    {
        let ghost segs0 = vsegs(old(self).rows@);
        let ghost t = *table;
        let ghost lines = merged(segs0);
        let ghost y0 = old(self).cursor.y as int;
        let ghost a0 = old(self).cursor_line();
        let ghost d0 = old(self).cursor_offset();
        proof {
            assert(segs0[y0] == self.rows@[y0]@);
            assert(segs0[0] == self.rows@[0]@);
            lemma_offset_bound(segs0, y0, old(self).cursor.x as int);
            crate::model::lemma_offset_le_line(segs0, y0, old(self).cursor.x as int);
            crate::model::lemma_merged_at(segs0, y0);
            lemma_concat_merged(segs0);
        }
        let at = Cursor { x: self.cursor.x, y: self.cursor.y };
        let temp = TempCursor { x: 0, y: 0 };
        let res = create_wrapped_buffer(&self.rows, table, nw, &at, &temp);
        match res {
            Ok(p) => {
                let nrows = p.0;
                let ncur = p.1;
                let m = nrows.len();
                proof {
                    lemma_commit(t, lines, nw, a0, d0, m as int);
                }
                self.rows = nrows;
                self.cursor = ncur;
                self.border = BorderSize { width: nw, height: nh };
                proof {
                    let segs = vsegs(self.rows@);
                    assert(segs[self.cursor.y as int] == self.rows@[self.cursor.y as int]@);
                }
                Ok(())
            },
            Err(e) => Err(e),
        }
    }

    /// Inserts one character at the cursor on a working copy, reflows it,
    /// and publishes the result; the cursor follows the character.
    #[verifier::rlimit(100)]
    fn do_value(&mut self, table: &GlyphTable, c: char) -> (r: Result<(), WrapError>)
        requires
            old(self).wf(),
            doc_chars(vsegs(old(self).rows@)) < usize::MAX,
        ensures
            final(self).wf(),
            final(self).border == old(self).border,
            r is Err ==> *final(self) == *old(self) && r->Err_0 == WrapError::MissingGlyphMetric,
            ({
                let t = *table;
                let w = old(self).border.width;
                let lines = old(self).lines();
                let a = old(self).cursor_line();
                let d = old(self).cursor_offset();
                let lines1 = lines.update(a, lines[a].insert(d, c));
                &&& (r is Ok <==> covers_lines(t, lines1))
                &&& (r is Ok ==> vsegs(final(self).rows@) == reflow_segs(t, lines1, w)
                    && final(self).cursor == reflow_cursor(t, lines1, w, a, d + 1))
            }),
    {
        let ghost segs0 = vsegs(old(self).rows@);
        let ghost t = *table;
        let ghost lines = merged(segs0);
        let ghost y0 = old(self).cursor.y as int;
        let ghost x0 = old(self).cursor.x as int;
        let ghost a0 = old(self).cursor_line();
        let ghost d0 = old(self).cursor_offset();
        let ghost t2 = segs0[y0].text.insert(x0, c);
        let ghost lines1 = lines.update(a0, lines[a0].insert(d0, c));
        proof {
            assert(segs0[y0] == self.rows@[y0]@);
            assert(segs0[0] == self.rows@[0]@);
            lemma_offset_bound(segs0, y0, segs0[y0].text.len() as int);
            lemma_offset_bound(segs0, y0, x0);
            crate::model::lemma_offset_le_line(segs0, y0, x0);
            crate::model::lemma_merged_at(segs0, y0);
            lemma_concat_merged(segs0);
        }
        let mut work = clone_rows(&self.rows);
        let ncur = mut_type(&self.cursor, &mut work, c);
        let ghost wsegs = vsegs(work@);
        proof {
            assert(wsegs =~= segs0.update(y0, SegView { text: t2, ..segs0[y0] }));
            lemma_text_edit_bridge(segs0, y0, x0, t2, x0 + 1);
            let s = crate::model::line_start(segs0, y0);
            let e = crate::model::line_end(segs0, y0);
            let p = concat_texts(texts(segs0.subrange(s, y0)));
            let q = concat_texts(texts(segs0.subrange(y0 + 1, e)));
            crate::model::lemma_concat3_insert(p, segs0[y0].text, q, x0, c);
            assert(p.len() == d0 - x0);
            assert(lines[a0].insert(d0, c) =~= p + t2 + q);
            assert(merged(wsegs) == lines1);
            assert(offset_of(wsegs, y0, x0 + 1) == d0 + 1);
            assert(work@[0]@ == wsegs[0]);
            assert(work@[y0]@ == wsegs[y0]);
        }
        let temp = TempCursor { x: 0, y: 0 };
        let res = create_wrapped_buffer(&work, table, self.border.width, &ncur, &temp);
        match res {
            Ok(pr) => {
                let nrows = pr.0;
                let ncur2 = pr.1;
                let m = nrows.len();
                proof {
                    lemma_concat_merged(wsegs);
                    assert(lines1.len() == lines.len());
                    assert(lines1[a0] == lines[a0].insert(d0, c));
                    assert(lines1[a0].len() == lines[a0].len() + 1);
                    lemma_commit(t, lines1, self.border.width, a0, d0 + 1, m as int);
                }
                self.rows = nrows;
                self.cursor = ncur2;
                proof {
                    let segs = vsegs(self.rows@);
                    assert(segs[self.cursor.y as int] == self.rows@[self.cursor.y as int]@);
                }
                Ok(())
            },
            Err(e) => Err(e),
        }
    }

    /// Removes the character before the cursor on a working copy, reflows
    /// it, and publishes the result; the cursor steps back by one.
    #[verifier::rlimit(100)]
    fn do_back_char(&mut self, table: &GlyphTable) -> (r: Result<(), WrapError>)
        requires
            old(self).wf(),
            old(self).cursor.x >= 1,
        ensures
            final(self).wf(),
            final(self).border == old(self).border,
            r is Err ==> *final(self) == *old(self) && r->Err_0 == WrapError::MissingGlyphMetric,
            ({
                let t = *table;
                let w = old(self).border.width;
                let lines = old(self).lines();
                let a = old(self).cursor_line();
                let d = old(self).cursor_offset();
                let lines1 = lines.update(a, lines[a].remove(d - 1));
                &&& (r is Ok <==> covers_lines(t, lines1))
                &&& (r is Ok ==> vsegs(final(self).rows@) == reflow_segs(t, lines1, w)
                    && final(self).cursor == reflow_cursor(t, lines1, w, a, d - 1))
            }),
    {
        let ghost segs0 = vsegs(old(self).rows@);
        let ghost t = *table;
        let ghost lines = merged(segs0);
        let ghost y0 = old(self).cursor.y as int;
        let ghost x0 = old(self).cursor.x as int;
        let ghost a0 = old(self).cursor_line();
        let ghost d0 = old(self).cursor_offset();
        let ghost t2 = segs0[y0].text.remove(x0 - 1);
        let ghost lines1 = lines.update(a0, lines[a0].remove(d0 - 1));
        proof {
            assert(segs0[y0] == self.rows@[y0]@);
            assert(segs0[0] == self.rows@[0]@);
            lemma_offset_bound(segs0, y0, x0);
            crate::model::lemma_offset_le_line(segs0, y0, x0);
            crate::model::lemma_merged_at(segs0, y0);
            lemma_concat_merged(segs0);
        }
        let mut work = clone_rows(&self.rows);
        let ncur = mut_backspace(&self.cursor, &mut work);
        let ghost wsegs = vsegs(work@);
        proof {
            assert(wsegs =~= segs0.update(y0, SegView { text: t2, ..segs0[y0] }));
            lemma_text_edit_bridge(segs0, y0, x0, t2, x0 - 1);
            let s = crate::model::line_start(segs0, y0);
            let e = crate::model::line_end(segs0, y0);
            let p = concat_texts(texts(segs0.subrange(s, y0)));
            let q = concat_texts(texts(segs0.subrange(y0 + 1, e)));
            crate::model::lemma_concat3_remove(p, segs0[y0].text, q, x0 - 1);
            assert(p.len() == d0 - x0);
            assert(lines[a0].remove(d0 - 1) =~= p + t2 + q);
            assert(merged(wsegs) == lines1);
            assert(offset_of(wsegs, y0, x0 - 1) == d0 - 1);
            assert(work@[0]@ == wsegs[0]);
            assert(work@[y0]@ == wsegs[y0]);
        }
        let temp = TempCursor { x: 0, y: 0 };
        let res = create_wrapped_buffer(&work, table, self.border.width, &ncur, &temp);
        match res {
            Ok(pr) => {
                let nrows = pr.0;
                let ncur2 = pr.1;
                let m = nrows.len();
                proof {
                    lemma_concat_merged(wsegs);
                    assert(lines1.len() == lines.len());
                    assert(lines1[a0] == lines[a0].remove(d0 - 1));
                    assert(lines1[a0].len() == lines[a0].len() - 1);
                    lemma_commit(t, lines1, self.border.width, a0, d0 - 1, m as int);
                }
                self.rows = nrows;
                self.cursor = ncur2;
                proof {
                    let segs = vsegs(self.rows@);
                    assert(segs[self.cursor.y as int] == self.rows@[self.cursor.y as int]@);
                }
                Ok(())
            },
            Err(e) => Err(e),
        }
    }

    /// Opens a new empty line after the cursor's line on a working copy,
    /// reflows it, and publishes the result; the cursor lands at the new
    /// line's start.
    #[verifier::rlimit(100)]
    fn do_newline(&mut self, table: &GlyphTable) -> (r: Result<(), WrapError>)
        requires
            old(self).wf(),
            old(self).rows@.len() < usize::MAX,
        ensures
            final(self).wf(),
            final(self).border == old(self).border,
            r is Err ==> *final(self) == *old(self) && r->Err_0 == WrapError::MissingGlyphMetric,
            ({
                let t = *table;
                let w = old(self).border.width;
                let lines = old(self).lines();
                let a = old(self).cursor_line();
                let lines1 = lines.insert(a + 1, Seq::<char>::empty());
                &&& (r is Ok <==> covers_lines(t, lines1))
                &&& (r is Ok ==> vsegs(final(self).rows@) == reflow_segs(t, lines1, w)
                    && final(self).cursor == reflow_cursor(t, lines1, w, a + 1, 0))
            }),
    {
        let ghost segs0 = vsegs(old(self).rows@);
        let ghost t = *table;
        let ghost lines = merged(segs0);
        let ghost y0 = old(self).cursor.y as int;
        let ghost a0 = old(self).cursor_line();
        let ghost lines1 = lines.insert(a0 + 1, Seq::<char>::empty());
        proof {
            assert(segs0[y0] == self.rows@[y0]@);
            assert(segs0[0] == self.rows@[0]@);
            crate::model::lemma_merged_at(segs0, y0);
            lemma_concat_merged(segs0);
        }
        let mut work = clone_rows(&self.rows);
        let pair = mut_new_line(&self.cursor, &mut work);
        let ntemp = pair.0;
        let ncur = pair.1;
        let ghost wsegs = vsegs(work@);
        let ghost e = crate::model::line_end(segs0, y0);
        let ghost nseg = SegView {
            text: Seq::<char>::empty(),
            continuation: false,
            owner: segs0.last().owner + 1,
        };
        proof {
            assert(wsegs == segs0.insert(e, nseg));
            crate::model::lemma_merged_insert_line(segs0, y0, nseg);
            assert(merged(wsegs) == lines1);
            crate::model::lemma_line_end_props(segs0, y0);
            // the corrected cursor position is the new segment
            assert(ncur.y as int + ntemp.y as int == e);
            assert(wsegs[e] == nseg);
            assert(work@[e]@ == wsegs[e]);
            assert(work@[0]@ == wsegs[0]);
            assert(crate::model::line_start(wsegs, e) == e);
            assert(wsegs.take(e) =~= segs0.take(e));
            assert(line_ordinal(wsegs, e) == a0 + 1);
            assert(wsegs.subrange(e, e) =~= Seq::<SegView>::empty());
            assert(texts(Seq::<SegView>::empty()) =~= Seq::<Seq<char>>::empty());
            assert(concat_texts(Seq::<Seq<char>>::empty()) == Seq::<char>::empty());
            assert(offset_of(wsegs, e, 0) == 0);
            crate::model::lemma_doc_chars_insert_seg(segs0, e, nseg);
        }
        let res = create_wrapped_buffer(&work, table, self.border.width, &ncur, &ntemp);
        match res {
            Ok(pr) => {
                let nrows = pr.0;
                let ncur2 = pr.1;
                let m = nrows.len();
                proof {
                    lemma_concat_merged(wsegs);
                    assert(lines1.len() == lines.len() + 1);
                    assert(lines1[a0 + 1] == Seq::<char>::empty());
                    lemma_commit(t, lines1, self.border.width, a0 + 1, 0, m as int);
                }
                self.rows = nrows;
                self.cursor = ncur2;
                proof {
                    let segs = vsegs(self.rows@);
                    assert(segs[self.cursor.y as int] == self.rows@[self.cursor.y as int]@);
                }
                Ok(())
            },
            Err(e2) => Err(e2),
        }
    }

    /// Backspace at column 0 past the first line: merges the cursor's
    /// line into the previous one on a working copy — keeping every
    /// character of the merged line — deletes the previous line's last
    /// character if it has one, reflows, and publishes.
    #[verifier::rlimit(100)]
    fn do_back_merge(&mut self, table: &GlyphTable) -> (r: Result<(), WrapError>)
        requires
            old(self).wf(),
            old(self).cursor.x == 0,
            old(self).cursor.y >= 1,
        ensures
            final(self).wf(),
            final(self).border == old(self).border,
            r is Err ==> *final(self) == *old(self) && r->Err_0 == WrapError::MissingGlyphMetric,
            ({
                let t = *table;
                let w = old(self).border.width;
                let lines = old(self).lines();
                let a = old(self).cursor_line();
                let prev = lines[a - 1];
                let d1 = if prev.len() > 0 {
                    prev.len() - 1
                } else {
                    0int
                };
                let lines1 = lines.remove(a).update(
                    a - 1,
                    (if prev.len() > 0 {
                        prev.drop_last()
                    } else {
                        prev
                    }) + lines[a],
                );
                &&& a >= 1
                &&& (r is Ok <==> covers_lines(t, lines1))
                &&& (r is Ok ==> vsegs(final(self).rows@) == reflow_segs(t, lines1, w)
                    && final(self).cursor == reflow_cursor(t, lines1, w, a - 1, d1))
            }),
    {
        let ghost segs0 = vsegs(old(self).rows@);
        let ghost t = *table;
        let ghost lines = merged(segs0);
        let ghost y0 = old(self).cursor.y as int;
        let ghost a0 = old(self).cursor_line();
        let ghost prev = lines[a0 - 1];
        let ghost lt = segs0[y0 - 1].text;
        let plen = self.rows[self.cursor.y - 1].text.len();
        proof {
            assert(segs0[y0] == self.rows@[y0]@);
            assert(segs0[y0 - 1] == self.rows@[y0 - 1]@);
            assert(segs0[0] == self.rows@[0]@);
            assert(lt.len() == plen);
            if plen > 0 {
                lemma_back_merge_pos(segs0, y0);
            } else {
                lemma_back_merge_zero(segs0, y0);
            }
        }
        let ghost w1 = crate::model::delete_line_segs(segs0, y0);
        let ghost lines1 = lines.remove(a0).update(
            a0 - 1,
            (if prev.len() > 0 {
                prev.drop_last()
            } else {
                prev
            }) + lines[a0],
        );
        let ghost wfin = if lt.len() > 0 {
            w1.update(
                y0 - 1,
                SegView { text: (lt + segs0[y0].text).remove(lt.len() - 1), ..w1[y0 - 1] },
            )
        } else {
            w1
        };
        let ghost d1: int = if prev.len() > 0 {
            prev.len() - 1
        } else {
            0int
        };
        let mut work = clone_rows(&self.rows);
        let cur1 = crate::edit::mut_delete_line(&self.cursor, &mut work);
        proof {
            assert(vsegs(work@) == crate::model::delete_line_segs(vsegs(old(self).rows@), y0));
            assert(vsegs(work@) == w1);
            assert(cur1 == (Cursor { x: plen, y: (y0 - 1) as usize }));
        }
        let cur2 = if cur1.x > 0 {
            proof {
                assert(work@[y0 - 1]@ == w1[y0 - 1]);
                assert(w1[y0 - 1].text == lt + segs0[y0].text);
            }
            mut_backspace(&cur1, &mut work)
        } else {
            cur1
        };
        proof {
            if lt.len() > 0 {
                assert(vsegs(work@) =~= wfin);
            } else {
                assert(vsegs(work@) == wfin);
            }
            assert(work@[0]@ == wfin[0]);
            assert(work@[y0 - 1]@ == wfin[y0 - 1]);
            assert(cur2.y as int == y0 - 1);
            assert(cur2.x as int <= wfin[y0 - 1].text.len());
        }
        let temp = TempCursor { x: 0, y: 0 };
        let res = create_wrapped_buffer(&work, table, self.border.width, &cur2, &temp);
        match res {
            Ok(pr) => {
                let nrows = pr.0;
                let ncur2 = pr.1;
                let m = nrows.len();
                proof {
                    assert(merged(vsegs(work@)) == lines1);
                    assert(offset_of(vsegs(work@), cur2.y as int, cur2.x as int) == d1);
                    assert(line_ordinal(vsegs(work@), cur2.y as int) == a0 - 1);
                    lemma_commit(t, lines1, self.border.width, a0 - 1, d1, m as int);
                }
                self.rows = nrows;
                self.cursor = ncur2;
                proof {
                    let segs = vsegs(self.rows@);
                    assert(segs[self.cursor.y as int] == self.rows@[self.cursor.y as int]@);
                }
                Ok(())
            },
            Err(e2) => Err(e2),
        }
    }

    /// One full command cycle: apply the edit, merge, re-wrap, relocate,
    /// and publish — or reject the command and keep the old snapshot.
    /// Boundary commands (cursor-left at column 0, backspace at the very
    /// start of the document, cursor-right) are documented no-ops.
    pub fn apply_command(&mut self, cmd: KeyCommand, table: &GlyphTable) -> (r: Result<
        (),
        WrapError,
    >)
        requires
            old(self).wf(),
            cmd matches KeyCommand::Value(_) ==> doc_chars(vsegs(old(self).rows@)) < usize::MAX,
            cmd matches KeyCommand::NewLine ==> old(self).rows@.len() < usize::MAX,
        ensures
            final(self).wf(),
            r is Err ==> *final(self) == *old(self) && r->Err_0 == WrapError::MissingGlyphMetric,
            !(cmd matches KeyCommand::Size(..)) ==> final(self).border == old(self).border,
            cmd matches KeyCommand::Idle ==> r is Ok && *final(self) == *old(self),
            cmd matches KeyCommand::Right ==> r is Ok && *final(self) == *old(self),
            (cmd matches KeyCommand::Left && old(self).cursor.x == 0) ==> r is Ok && *final(self)
                == *old(self),
            (cmd matches KeyCommand::Back && old(self).cursor.x == 0 && old(self).cursor.y == 0)
                ==> r is Ok && *final(self) == *old(self),
            (cmd matches KeyCommand::Left && old(self).cursor.x >= 1) ==> ({
                let w = old(self).border.width;
                &&& (r is Ok <==> covers_lines(*table, old(self).lines()))
                &&& (r is Ok ==> vsegs(final(self).rows@) == reflow_segs(
                    *table,
                    old(self).lines(),
                    w,
                ) && final(self).cursor == reflow_cursor(
                    *table,
                    old(self).lines(),
                    w,
                    old(self).cursor_line(),
                    old(self).cursor_offset() - 1,
                ))
            }),
            cmd matches KeyCommand::Size(nw, nh) ==> ({
                &&& (r is Ok <==> covers_lines(*table, old(self).lines()))
                &&& (r is Ok ==> vsegs(final(self).rows@) == reflow_segs(
                    *table,
                    old(self).lines(),
                    nw,
                ) && final(self).cursor == reflow_cursor(
                    *table,
                    old(self).lines(),
                    nw,
                    old(self).cursor_line(),
                    old(self).cursor_offset(),
                ) && final(self).border == (BorderSize { width: nw, height: nh }))
            }),
            cmd matches KeyCommand::Value(c) ==> ({
                let w = old(self).border.width;
                let lines = old(self).lines();
                let a = old(self).cursor_line();
                let d = old(self).cursor_offset();
                let lines1 = lines.update(a, lines[a].insert(d, c));
                &&& (r is Ok <==> covers_lines(*table, lines1))
                &&& (r is Ok ==> vsegs(final(self).rows@) == reflow_segs(*table, lines1, w)
                    && final(self).cursor == reflow_cursor(*table, lines1, w, a, d + 1))
            }),
            cmd matches KeyCommand::NewLine ==> ({
                let w = old(self).border.width;
                let lines = old(self).lines();
                let a = old(self).cursor_line();
                let lines1 = lines.insert(a + 1, Seq::<char>::empty());
                &&& (r is Ok <==> covers_lines(*table, lines1))
                &&& (r is Ok ==> vsegs(final(self).rows@) == reflow_segs(*table, lines1, w)
                    && final(self).cursor == reflow_cursor(*table, lines1, w, a + 1, 0))
            }),
            (cmd matches KeyCommand::Back && old(self).cursor.x >= 1) ==> ({
                let w = old(self).border.width;
                let lines = old(self).lines();
                let a = old(self).cursor_line();
                let d = old(self).cursor_offset();
                let lines1 = lines.update(a, lines[a].remove(d - 1));
                &&& (r is Ok <==> covers_lines(*table, lines1))
                &&& (r is Ok ==> vsegs(final(self).rows@) == reflow_segs(*table, lines1, w)
                    && final(self).cursor == reflow_cursor(*table, lines1, w, a, d - 1))
            }),
            (cmd matches KeyCommand::Back && old(self).cursor.x == 0 && old(self).cursor.y >= 1)
                ==> ({
                let w = old(self).border.width;
                let lines = old(self).lines();
                let a = old(self).cursor_line();
                let prev = lines[a - 1];
                let d1: int = if prev.len() > 0 {
                    prev.len() - 1
                } else {
                    0int
                };
                let lines1 = lines.remove(a).update(
                    a - 1,
                    (if prev.len() > 0 {
                        prev.drop_last()
                    } else {
                        prev
                    }) + lines[a],
                );
                &&& a >= 1
                &&& (r is Ok <==> covers_lines(*table, lines1))
                &&& (r is Ok ==> vsegs(final(self).rows@) == reflow_segs(*table, lines1, w)
                    && final(self).cursor == reflow_cursor(*table, lines1, w, a - 1, d1))
            }),
    {
        match cmd {
            KeyCommand::Idle => Ok(()),
            KeyCommand::Right => Ok(()),
            KeyCommand::Left => {
                if self.cursor.x == 0 {
                    Ok(())
                } else {
                    self.do_left(table)
                }
            },
            KeyCommand::Size(nw, nh) => self.do_size(table, nw, nh),
            KeyCommand::Value(c) => self.do_value(table, c),
            KeyCommand::NewLine => self.do_newline(table),
            KeyCommand::Back => {
                if self.cursor.x > 0 {
                    self.do_back_char(table)
                } else if self.cursor.y == 0 {
                    Ok(())
                } else {
                    self.do_back_merge(table)
                }
            },
        }
    }

    /// The number of characters in the whole document.
    pub fn doc_len(&self) -> (r: usize)
        requires
            self.wf(),
        ensures
            r as int == doc_chars(vsegs(self.rows@)),
    {
        let ghost segs = vsegs(self.rows@);
        let mut total: usize = 0;
        let mut i: usize = 0;
        proof {
            assert(texts(segs.take(0)) =~= Seq::<Seq<char>>::empty());
            assert(concat_texts(Seq::<Seq<char>>::empty()) == Seq::<char>::empty());
        }
        while i < self.rows.len()
            invariant
                0 <= i <= self.rows@.len(),
                total as int == concat_texts(texts(segs.take(i as int))).len(),
                segs == vsegs(self.rows@),
                doc_chars(segs) <= usize::MAX,
            decreases self.rows@.len() - i,
        {
            proof {
                let a = texts(segs.take(i as int));
                let b = texts(segs.take(i as int + 1));
                assert(b =~= a.push(segs[i as int].text));
                crate::model::lemma_concat_push(a, segs[i as int].text);
                assert(segs[i as int] == self.rows@[i as int]@);
                // the partial sum stays under the total
                let c = texts(segs);
                assert(c =~= b + texts(segs.subrange(i as int + 1, segs.len() as int)));
                crate::model::lemma_concat_append(
                    b,
                    texts(segs.subrange(i as int + 1, segs.len() as int)),
                );
            }
            total = total + self.rows[i].text.len();
            i = i + 1;
        }
        proof {
            assert(segs.take(segs.len() as int) =~= segs);
        }
        total
    }
}

} // verus!

//! The data model: wrapped segments, cursors, glyph metrics, and the
//! specification-level views and invariants that the rest of the crate
//! states its contracts over.

use vstd::prelude::*;

verus! {

/// One physical piece of a logical line in the wrapped view.
///
/// `continuation` is false exactly on the first piece of each logical line;
/// `owner` ties the pieces of one logical line together.  Owner ids are
/// assigned per wrap pass and are not stable across reflows.
pub struct Segment {
    pub text: Vec<char>,
    pub continuation: bool,
    pub owner: usize,
}

/// Mathematical shadow of `Segment`; the specifications speak of these.
pub struct SegView {
    pub text: Seq<char>,
    pub continuation: bool,
    pub owner: int,
}

impl View for Segment {
    type V = SegView;

    open spec fn view(&self) -> SegView {
        SegView { text: self.text@, continuation: self.continuation, owner: self.owner as int }
    }
}

/// The views of a list of segments.
pub open spec fn vsegs(rows: Seq<Segment>) -> Seq<SegView> {
    rows.map_values(|s: Segment| s@)
}

/// A cursor in wrapped coordinates: `y` indexes the segment list, `x` is a
/// character column inside that segment, `0 <= x <= len` of its text.
#[derive(Clone, Copy, Debug, PartialEq, Eq, Structural)]
pub struct Cursor {
    pub x: usize,
    pub y: usize,
}

/// A one-shot cursor correction left behind by a structural edit, consumed
/// by the next reflow's cursor location and then discarded.
#[derive(Clone, Copy, Debug, PartialEq, Eq, Structural)]
pub struct TempCursor {
    pub x: usize,
    pub y: usize,
}

/// Advance widths for a contiguous range of characters, starting at the
/// scalar value `first`.  Characters outside the range have no metric.
pub struct GlyphTable {
    pub first: u32,
    pub advances: Vec<u64>,
}

/// A character outside the glyph table's range was met while wrapping.
#[derive(Clone, Copy, Debug, PartialEq, Eq, Structural)]
pub enum WrapError {
    MissingGlyphMetric,
}

impl GlyphTable {
    /// The advance width of `c`, or `None` when `c` has no metric.
    pub open spec fn spec_lookup(&self, c: char) -> Option<u64> {
        if self.first <= c as u32 && c as u32 - self.first < self.advances@.len() {
            Some(self.advances@[c as u32 - self.first])
        } else {
            None
        }
    }

    pub fn lookup(&self, c: char) -> (r: Option<u64>)
        ensures
            r == self.spec_lookup(c),
    {
        let u = c as u32;
        if u >= self.first {
            let off = u - self.first;
            if (off as usize) < self.advances.len() {
                return Some(self.advances[off as usize]);
            }
        }
        None
    }

    /// Every character of `text` has a metric.
    pub open spec fn covers(&self, text: Seq<char>) -> bool {
        forall|i: int| 0 <= i < text.len() ==> (#[trigger] self.spec_lookup(text[i])) is Some
    }

    /// The advance width of `c` as a number; meaningful only under `covers`.
    pub open spec fn adv(&self, c: char) -> int {
        match self.spec_lookup(c) {
            Some(a) => a as int,
            None => 0,
        }
    }
}

/// Well-formed wrapped view: non-empty, begins with a line start, and a
/// segment continues its predecessor exactly when they share an owner.
/// This is what merging and cursor location rely on.
pub open spec fn wf(segs: Seq<SegView>) -> bool {
    &&& segs.len() > 0
    &&& !segs[0].continuation
    &&& forall|i: int|
        0 < i < segs.len() ==> ((#[trigger] segs[i]).continuation <==> segs[i].owner == segs[i
            - 1].owner)
}

/// The shape a wrap pass produces: owner ids are the 0-based positions of
/// the logical lines, so they rise by one at every line start.
pub open spec fn canonical(segs: Seq<SegView>) -> bool {
    &&& wf(segs)
    &&& segs[0].owner == 0
    &&& forall|i: int|
        0 < i < segs.len() ==> (#[trigger] segs[i]).owner == segs[i - 1].owner + (
        if segs[i].continuation {
            0int
        } else {
            1int
        })
}

/// The texts of a list of segments.
pub open spec fn texts(segs: Seq<SegView>) -> Seq<Seq<char>> {
    segs.map_values(|s: SegView| s.text)
}

/// All the given texts, joined in order.
pub open spec fn concat_texts(ss: Seq<Seq<char>>) -> Seq<char>
    decreases ss.len(),
{
    if ss.len() == 0 {
        Seq::empty()
    } else {
        concat_texts(ss.drop_last()) + ss.last()
    }
}

/// The logical lines described by a wrapped view: a line start opens a new
/// line, a continuation appends its text to the line most recently opened.
pub open spec fn merged(segs: Seq<SegView>) -> Seq<Seq<char>>
    decreases segs.len(),
{
    if segs.len() == 0 {
        Seq::empty()
    } else {
        let rest = merged(segs.drop_last());
        let s = segs.last();
        if s.continuation && rest.len() > 0 {
            rest.update(rest.len() - 1, rest.last() + s.text)
        } else {
            rest.push(s.text)
        }
    }
}

/// How many logical lines a wrapped view holds.
pub open spec fn count_starts(segs: Seq<SegView>) -> int
    decreases segs.len(),
{
    if segs.len() == 0 {
        0
    } else {
        count_starts(segs.drop_last()) + (
        if segs.last().continuation {
            0int
        } else {
            1int
        })
    }
}

/// The index of the first segment of the line that segment `y` belongs to.
pub open spec fn line_start(segs: Seq<SegView>, y: int) -> int
    decreases y,
{
    if y <= 0 {
        0
    } else if !segs[y].continuation {
        y
    } else {
        line_start(segs, y - 1)
    }
}

/// One past the index of the last segment of the line that `y` belongs to.
pub open spec fn line_end(segs: Seq<SegView>, y: int) -> int
    decreases segs.len() - y,
{
    if y + 1 >= segs.len() {
        segs.len() as int
    } else if !segs[y + 1].continuation {
        y + 1
    } else {
        line_end(segs, y + 1)
    }
}

/// The position of segment `y`'s logical line among the merged lines.
pub open spec fn line_ordinal(segs: Seq<SegView>, y: int) -> int {
    count_starts(segs.take(line_start(segs, y)))
}

/// The logical character offset of wrapped position `(y, x)` within its
/// line: the characters on the line's earlier segments, plus the column.
pub open spec fn offset_of(segs: Seq<SegView>, y: int, x: int) -> int {
    concat_texts(texts(segs.subrange(line_start(segs, y), y))).len() + x
}

/// A wrapped view with the run `[from, to)` handed over to another line.
pub open spec fn retag(segs: Seq<SegView>, from: int, to: int, owner: int) -> Seq<SegView> {
    segs.map(
        |i: int, s: SegView|
            if from <= i < to {
                SegView { owner, ..s }
            } else {
                s
            },
    )
}

/// The wrapped view after the line starting at segment `y` is merged into
/// the line before it: segment `y` leaves the list with its text spliced
/// onto the end of the previous segment, and the rest of its line
/// continues the previous line.
pub open spec fn delete_line_segs(segs: Seq<SegView>, y: int) -> Seq<SegView> {
    retag(
        segs.remove(y).update(
            y - 1,
            SegView { text: segs[y - 1].text + segs[y].text, ..segs[y - 1] },
        ),
        y,
        line_end(segs, y) - 1,
        segs[y - 1].owner,
    )
}

/// An empty segment only ever stands alone on an empty logical line.
pub open spec fn no_empty_middles(segs: Seq<SegView>) -> bool {
    forall|i: int|
        0 <= i < segs.len() ==> ((#[trigger] segs[i]).text.len() == 0 ==> !segs[i].continuation
            && (i + 1 == segs.len() || !segs[i + 1].continuation))
}

pub proof fn lemma_concat_append(a: Seq<Seq<char>>, b: Seq<Seq<char>>)
    ensures
        concat_texts(a + b) == concat_texts(a) + concat_texts(b),
    decreases b.len(),
{
    if b.len() == 0 {
        assert(a + b =~= a);
        assert(concat_texts(a) + concat_texts(b) =~= concat_texts(a));
    } else {
        lemma_concat_append(a, b.drop_last());
        assert((a + b).drop_last() =~= a + b.drop_last());
        assert((a + b).last() == b.last());
        assert(concat_texts(a) + (concat_texts(b.drop_last()) + b.last()) =~= (concat_texts(a)
            + concat_texts(b.drop_last())) + b.last());
    }
}

pub proof fn lemma_concat_push(ss: Seq<Seq<char>>, v: Seq<char>)
    ensures
        concat_texts(ss.push(v)) == concat_texts(ss) + v,
{
    assert(ss.push(v).drop_last() =~= ss);
    assert(ss.push(v).last() == v);
}

pub proof fn lemma_count_starts_pos(segs: Seq<SegView>)
    requires
        segs.len() > 0,
        !segs[0].continuation,
    ensures
        count_starts(segs) >= 1,
    decreases segs.len(),
{
    if segs.len() > 1 {
        lemma_count_starts_pos(segs.drop_last());
    } else {
        assert(segs.drop_last() =~= Seq::<SegView>::empty());
        assert(count_starts(Seq::<SegView>::empty()) == 0);
    }
}

pub proof fn lemma_merged_count(segs: Seq<SegView>)
    requires
        segs.len() == 0 || !segs[0].continuation,
    ensures
        merged(segs).len() == count_starts(segs),
    decreases segs.len(),
{
    if segs.len() > 0 {
        lemma_merged_count(segs.drop_last());
        if segs.last().continuation {
            lemma_count_starts_pos(segs.drop_last());
        }
    }
}

pub proof fn lemma_merged_append(a: Seq<SegView>, b: Seq<SegView>)
    requires
        b.len() > 0,
        !b[0].continuation,
    ensures
        merged(a + b) == merged(a) + merged(b),
    decreases b.len(),
{
    if b.len() == 1 {
        assert((a + b).drop_last() =~= a);
        assert((a + b).last() == b[0]);
        assert(b.drop_last() =~= Seq::<SegView>::empty());
        assert(merged(Seq::<SegView>::empty()) == Seq::<Seq<char>>::empty());
        assert(merged(b) == Seq::<Seq<char>>::empty().push(b[0].text));
        assert(merged(a) + merged(b) =~= merged(a).push(b[0].text));
    } else {
        lemma_merged_append(a, b.drop_last());
        assert((a + b).drop_last() =~= a + b.drop_last());
        assert((a + b).last() == b.last());
        let s = b.last();
        let rest = merged(b.drop_last());
        lemma_merged_count(b.drop_last());
        lemma_count_starts_pos(b.drop_last());
        if s.continuation {
            assert((merged(a) + rest).last() == rest.last());
            assert((merged(a) + rest).update((merged(a) + rest).len() - 1, rest.last() + s.text)
                =~= merged(a) + rest.update(rest.len() - 1, rest.last() + s.text));
        } else {
            assert((merged(a) + rest).push(s.text) =~= merged(a) + rest.push(s.text));
        }
    }
}

pub proof fn lemma_merged_one_group(g: Seq<SegView>)
    requires
        g.len() > 0,
        !g[0].continuation,
        forall|i: int| 0 < i < g.len() ==> (#[trigger] g[i]).continuation,
    ensures
        merged(g) == seq![concat_texts(texts(g))],
    decreases g.len(),
{
    if g.len() == 1 {
        assert(texts(g).drop_last() =~= Seq::<Seq<char>>::empty());
        assert(texts(g).last() == g[0].text);
        assert(g.drop_last() =~= Seq::<SegView>::empty());
        assert(concat_texts(Seq::<Seq<char>>::empty()) == Seq::<char>::empty());
        assert(merged(Seq::<SegView>::empty()) == Seq::<Seq<char>>::empty());
        assert(concat_texts(texts(g)) =~= g[0].text);
        assert(merged(g) =~= seq![g[0].text]);
    } else {
        lemma_merged_one_group(g.drop_last());
        assert(texts(g).drop_last() =~= texts(g.drop_last()));
        assert(texts(g).last() == g.last().text);
        let rest = merged(g.drop_last());
        assert(rest.len() == 1);
        assert(merged(g) =~= seq![rest[0] + g.last().text]);
        assert(merged(g) =~= seq![concat_texts(texts(g))]);
    }
}

pub proof fn lemma_line_start_props(segs: Seq<SegView>, y: int)
    requires
        segs.len() > 0,
        !segs[0].continuation,
        0 <= y < segs.len(),
    ensures
        0 <= line_start(segs, y) <= y,
        !segs[line_start(segs, y)].continuation,
        forall|i: int| line_start(segs, y) < i <= y ==> (#[trigger] segs[i]).continuation,
    decreases y,
{
    if y > 0 && segs[y].continuation {
        lemma_line_start_props(segs, y - 1);
    }
}

pub proof fn lemma_line_start_in_group(segs: Seq<SegView>, s: int, y: int)
    requires
        0 <= s <= y < segs.len(),
        !segs[s].continuation,
        forall|i: int| s < i <= y ==> (#[trigger] segs[i]).continuation,
    ensures
        line_start(segs, y) == s,
    decreases y - s,
{
    if y > s {
        lemma_line_start_in_group(segs, s, y - 1);
    }
}

pub proof fn lemma_line_end_props(segs: Seq<SegView>, y: int)
    requires
        0 <= y < segs.len(),
    ensures
        y < line_end(segs, y) <= segs.len(),
        forall|i: int| y < i < line_end(segs, y) ==> (#[trigger] segs[i]).continuation,
        line_end(segs, y) == segs.len() || !segs[line_end(segs, y)].continuation,
    decreases segs.len() - y,
{
    if y + 1 < segs.len() && segs[y + 1].continuation {
        lemma_line_end_props(segs, y + 1);
    }
}

pub proof fn lemma_line_end_in_group(segs: Seq<SegView>, y: int, e: int)
    requires
        0 <= y < e <= segs.len(),
        forall|i: int| y < i < e ==> (#[trigger] segs[i]).continuation,
        e == segs.len() || !segs[e].continuation,
    ensures
        line_end(segs, y) == e,
    decreases e - y,
{
    if y + 1 < e {
        lemma_line_end_in_group(segs, y + 1, e);
    }
}

pub proof fn lemma_canonical_owner_le(segs: Seq<SegView>, i: int)
    requires
        canonical(segs),
        0 <= i < segs.len(),
    ensures
        0 <= segs[i].owner <= i,
    decreases i,
{
    if i > 0 {
        lemma_canonical_owner_le(segs, i - 1);
    }
}

pub proof fn lemma_canonical_owner_mono(segs: Seq<SegView>, i: int, j: int)
    requires
        canonical(segs),
        0 <= i <= j < segs.len(),
    ensures
        segs[i].owner <= segs[j].owner,
    decreases j - i,
{
    if j > i {
        lemma_canonical_owner_mono(segs, i, j - 1);
    }
}

/// The number of characters in the whole wrapped view.
pub open spec fn doc_chars(segs: Seq<SegView>) -> int {
    concat_texts(texts(segs)).len() as int
}

pub proof fn lemma_count_starts_append(a: Seq<SegView>, b: Seq<SegView>)
    ensures
        count_starts(a + b) == count_starts(a) + count_starts(b),
    decreases b.len(),
{
    if b.len() == 0 {
        assert(a + b =~= a);
        assert(count_starts(Seq::<SegView>::empty()) == 0);
        assert(b =~= Seq::<SegView>::empty());
    } else {
        lemma_count_starts_append(a, b.drop_last());
        assert((a + b).drop_last() =~= a + b.drop_last());
        assert((a + b).last() == b.last());
    }
}

pub proof fn lemma_count_starts_one_group(g: Seq<SegView>)
    requires
        g.len() >= 1,
        !g[0].continuation,
        forall|i: int| 0 < i < g.len() ==> (#[trigger] g[i]).continuation,
    ensures
        count_starts(g) == 1,
    decreases g.len(),
{
    if g.len() == 1 {
        assert(g.drop_last() =~= Seq::<SegView>::empty());
        assert(count_starts(Seq::<SegView>::empty()) == 0);
    } else {
        lemma_count_starts_one_group(g.drop_last());
    }
}

/// The merged line that segment `y` belongs to is exactly the joined texts
/// of its line's segments, sitting at the line's ordinal; the lines before
/// and after it are the merges of the surrounding segments.
pub proof fn lemma_merged_at(segs: Seq<SegView>, y: int)
    requires
        segs.len() > 0,
        !segs[0].continuation,
        0 <= y < segs.len(),
    ensures
        merged(segs).len() == count_starts(segs),
        0 <= line_ordinal(segs, y) < merged(segs).len(),
        merged(segs)[line_ordinal(segs, y)] == concat_texts(
            texts(segs.subrange(line_start(segs, y), line_end(segs, y))),
        ),
        merged(segs) == merged(segs.subrange(0, line_start(segs, y))) + seq![
            concat_texts(texts(segs.subrange(line_start(segs, y), line_end(segs, y)))),
        ] + merged(segs.subrange(line_end(segs, y), segs.len() as int)),
        line_ordinal(segs, y) == merged(segs.subrange(0, line_start(segs, y))).len(),
{
    let s = line_start(segs, y);
    let e = line_end(segs, y);
    lemma_line_start_props(segs, y);
    lemma_line_end_props(segs, y);
    let a = segs.subrange(0, s);
    let g = segs.subrange(s, e);
    let b = segs.subrange(e, segs.len() as int);
    assert(segs =~= (a + g) + b);
    lemma_merged_count(segs);
    lemma_merged_append(a, g);
    lemma_merged_one_group(g);
    if e < segs.len() {
        lemma_merged_append(a + g, b);
    } else {
        assert((a + g) + b =~= a + g);
    }
    if s > 0 {
        lemma_merged_count(a);
    }
    assert(segs.take(s) =~= a);
    lemma_count_starts_pos(g);
    assert(merged(segs)[line_ordinal(segs, y)] == merged(g)[0]);
    if e < segs.len() {
        assert(merged(segs) == merged(a) + merged(g) + merged(b));
    } else {
        assert(b =~= Seq::<SegView>::empty());
        assert(merged(Seq::<SegView>::empty()) == Seq::<Seq<char>>::empty());
        assert(merged(a) + merged(g) + merged(b) =~= merged(a) + merged(g));
    }
    assert(merged(g) == seq![concat_texts(texts(g))]);
    assert(merged(a) + merged(g) + merged(b) =~= merged(a) + seq![concat_texts(texts(g))] + merged(
        b,
    ));
}

/// Splitting a join of texts around one element.
pub proof fn lemma_concat_split_at(ss: Seq<Seq<char>>, k: int)
    requires
        0 <= k < ss.len(),
    ensures
        concat_texts(ss) == concat_texts(ss.take(k)) + ss[k] + concat_texts(
            ss.subrange(k + 1, ss.len() as int),
        ),
{
    let a = ss.take(k);
    let b = ss.subrange(k + 1, ss.len() as int);
    assert(ss =~= a.push(ss[k]) + b);
    lemma_concat_append(a.push(ss[k]), b);
    lemma_concat_push(a, ss[k]);
}

/// Merging regroups the characters but joins back to the same text.
pub proof fn lemma_concat_merged(segs: Seq<SegView>)
    requires
        segs.len() == 0 || !segs[0].continuation,
    ensures
        concat_texts(merged(segs)) == concat_texts(texts(segs)),
    decreases segs.len(),
{
    if segs.len() == 0 {
        assert(merged(segs) == Seq::<Seq<char>>::empty());
        assert(texts(segs) =~= Seq::<Seq<char>>::empty());
    } else {
        lemma_concat_merged(segs.drop_last());
        assert(texts(segs).drop_last() =~= texts(segs.drop_last()));
        assert(texts(segs).last() == segs.last().text);
        let rest = merged(segs.drop_last());
        let s = segs.last();
        if s.continuation && rest.len() > 0 {
            let m = merged(segs);
            assert(m.drop_last() =~= rest.drop_last());
            assert(m.last() == rest.last() + s.text);
            assert(concat_texts(m) == concat_texts(rest.drop_last()) + (rest.last() + s.text));
            assert(concat_texts(rest) == concat_texts(rest.drop_last()) + rest.last());
            assert(concat_texts(rest.drop_last()) + (rest.last() + s.text) =~= (concat_texts(
                rest.drop_last(),
            ) + rest.last()) + s.text);
        } else {
            lemma_concat_push(rest, s.text);
        }
    }
}

/// A cursor's logical offset never exceeds the whole document's size.
pub proof fn lemma_offset_bound(segs: Seq<SegView>, y: int, x: int)
    requires
        segs.len() > 0,
        !segs[0].continuation,
        0 <= y < segs.len(),
        0 <= x <= segs[y].text.len(),
    ensures
        0 <= offset_of(segs, y, x) <= doc_chars(segs),
{
    lemma_line_start_props(segs, y);
    let s = line_start(segs, y);
    let a = segs.take(s);
    let b = segs.subrange(s, y);
    let c = segs.subrange(y, segs.len() as int);
    assert(segs =~= a + b + c);
    assert(texts(segs) =~= texts(a) + texts(b) + texts(c));
    lemma_concat_append(texts(a) + texts(b), texts(c));
    lemma_concat_append(texts(a), texts(b));
    assert(texts(a) + texts(b) =~= (texts(a + b)));
    lemma_concat_split_at(texts(c), 0);
    assert(texts(c)[0] == segs[y].text);
    assert(texts(c).take(0) =~= Seq::<Seq<char>>::empty());
    assert(concat_texts(Seq::<Seq<char>>::empty()) == Seq::<char>::empty());
}

/// A single merged line never exceeds the whole document's size.
pub proof fn lemma_line_le_doc(lines: Seq<Seq<char>>, a: int)
    requires
        0 <= a < lines.len(),
    ensures
        lines[a].len() <= concat_texts(lines).len(),
{
    lemma_concat_split_at(lines, a);
}

/// The cursor's logical offset stays within its own merged line.
pub proof fn lemma_offset_le_line(segs: Seq<SegView>, y: int, x: int)
    requires
        segs.len() > 0,
        !segs[0].continuation,
        0 <= y < segs.len(),
        0 <= x <= segs[y].text.len(),
    ensures
        0 <= offset_of(segs, y, x) <= merged(segs)[line_ordinal(segs, y)].len(),
{
    lemma_merged_at(segs, y);
    lemma_line_start_props(segs, y);
    lemma_line_end_props(segs, y);
    let s = line_start(segs, y);
    let e = line_end(segs, y);
    let g = segs.subrange(s, e);
    assert(g =~= segs.subrange(s, y) + segs.subrange(y, e));
    assert(texts(g) =~= texts(segs.subrange(s, y)) + texts(segs.subrange(y, e)));
    lemma_concat_append(texts(segs.subrange(s, y)), texts(segs.subrange(y, e)));
    lemma_concat_split_at(texts(segs.subrange(y, e)), 0);
    assert(texts(segs.subrange(y, e))[0] == segs[y].text);
    assert(texts(segs.subrange(y, e)).take(0) =~= Seq::<Seq<char>>::empty());
    assert(concat_texts(Seq::<Seq<char>>::empty()) == Seq::<char>::empty());
}

/// Counting line starts only reads the continuation flags.
pub proof fn lemma_count_starts_flags(s1: Seq<SegView>, s2: Seq<SegView>)
    requires
        s1.len() == s2.len(),
        forall|i: int|
            0 <= i < s1.len() ==> (#[trigger] s1[i]).continuation == s2[i].continuation,
    ensures
        count_starts(s1) == count_starts(s2),
    decreases s1.len(),
{
    if s1.len() > 0 {
        assert(s1.drop_last().len() == s2.drop_last().len());
        lemma_count_starts_flags(s1.drop_last(), s2.drop_last());
    }
}

/// Finding the line's first segment only reads the continuation flags,
/// and only at or before the position asked about.
pub proof fn lemma_line_start_flags(s1: Seq<SegView>, s2: Seq<SegView>, y: int)
    requires
        0 <= y,
        forall|i: int| 0 <= i <= y ==> (#[trigger] s1[i]).continuation == s2[i].continuation,
    ensures
        line_start(s1, y) == line_start(s2, y),
    decreases y,
{
    if y > 0 && s1[y].continuation {
        lemma_line_start_flags(s1, s2, y - 1);
    }
}

/// Merging only reads the continuation flags and the texts.
pub proof fn lemma_merged_flags_texts(s1: Seq<SegView>, s2: Seq<SegView>)
    requires
        s1.len() == s2.len(),
        forall|i: int|
            0 <= i < s1.len() ==> (#[trigger] s1[i]).continuation == s2[i].continuation
                && s1[i].text == s2[i].text,
    ensures
        merged(s1) == merged(s2),
    decreases s1.len(),
{
    if s1.len() > 0 {
        assert(s1.drop_last().len() == s2.drop_last().len());
        lemma_merged_flags_texts(s1.drop_last(), s2.drop_last());
        assert(s1.last().continuation == s2.last().continuation);
        assert(s1.last().text == s2.last().text);
    }
}

/// Appending continuation segments only grows the last merged line.
pub proof fn lemma_merged_append_conts(a: Seq<SegView>, c: Seq<SegView>)
    requires
        a.len() >= 1,
        !a[0].continuation,
        forall|i: int| 0 <= i < c.len() ==> (#[trigger] c[i]).continuation,
    ensures
        merged(a + c) == merged(a).update(
            merged(a).len() - 1,
            merged(a).last() + concat_texts(texts(c)),
        ),
    decreases c.len(),
{
    lemma_merged_count(a);
    lemma_count_starts_pos(a);
    if c.len() == 0 {
        assert(a + c =~= a);
        assert(texts(c) =~= Seq::<Seq<char>>::empty());
        assert(concat_texts(Seq::<Seq<char>>::empty()) == Seq::<char>::empty());
        assert(merged(a).last() + Seq::<char>::empty() =~= merged(a).last());
        assert(merged(a).update(merged(a).len() - 1, merged(a).last()) =~= merged(a));
    } else {
        lemma_merged_append_conts(a, c.drop_last());
        assert((a + c).drop_last() =~= a + c.drop_last());
        assert((a + c).last() == c.last());
        let prev = merged(a + c.drop_last());
        let n = merged(a).len();
        assert(prev.len() == n);
        assert(prev.last() == merged(a).last() + concat_texts(texts(c.drop_last())));
        assert(c.last().continuation);
        assert(merged(a + c) == prev.update(n - 1, prev.last() + c.last().text));
        assert(texts(c).drop_last() =~= texts(c.drop_last()));
        assert(texts(c).last() == c.last().text);
        assert(merged(a).last() + (concat_texts(texts(c.drop_last())) + c.last().text) =~= (merged(
            a,
        ).last() + concat_texts(texts(c.drop_last()))) + c.last().text);
        assert(merged(a + c) =~= merged(a).update(
            n - 1,
            merged(a).last() + concat_texts(texts(c)),
        ));
    }
}

/// Changing one segment's text changes exactly its merged line, splicing
/// the new text between the line's surrounding characters.
pub proof fn lemma_merged_update_text(segs: Seq<SegView>, y: int, t2: Seq<char>)
    requires
        segs.len() > 0,
        !segs[0].continuation,
        0 <= y < segs.len(),
    ensures
        ({
            let segs2 = segs.update(y, SegView { text: t2, ..segs[y] });
            let s = line_start(segs, y);
            let e = line_end(segs, y);
            let a = line_ordinal(segs, y);
            &&& line_start(segs2, y) == s
            &&& line_end(segs2, y) == e
            &&& line_ordinal(segs2, y) == a
            &&& merged(segs2) == merged(segs).update(
                a,
                concat_texts(texts(segs.subrange(s, y))) + t2 + concat_texts(
                    texts(segs.subrange(y + 1, e)),
                ),
            )
            &&& merged(segs)[a] == concat_texts(texts(segs.subrange(s, y))) + segs[y].text
                + concat_texts(texts(segs.subrange(y + 1, e)))
        }),
{
    let segs2 = segs.update(y, SegView { text: t2, ..segs[y] });
    let s = line_start(segs, y);
    let e = line_end(segs, y);
    let a = line_ordinal(segs, y);
    lemma_line_start_props(segs, y);
    lemma_line_end_props(segs, y);
    lemma_line_start_flags(segs, segs2, y);
    lemma_line_end_in_group(segs2, y, e);
    assert(segs2.take(s) =~= segs.take(s));
    lemma_count_starts_flags(segs.take(line_start(segs2, y)), segs2.take(line_start(segs2, y)));
    assert(segs.take(line_start(segs2, y)) =~= segs.take(s));
    lemma_merged_at(segs, y);
    lemma_merged_at(segs2, y);
    assert(segs2.subrange(0, s) =~= segs.subrange(0, s));
    assert(segs2.subrange(e, segs2.len() as int) =~= segs.subrange(e, segs.len() as int));
    // the changed line's pieces
    let p = segs.subrange(s, y);
    let q = segs.subrange(y + 1, e);
    assert(segs2.subrange(s, y) =~= p);
    assert(segs2.subrange(y + 1, e) =~= q);
    assert(segs.subrange(s, e) =~= p + seq![segs[y]] + q);
    assert(segs2.subrange(s, e) =~= p + seq![segs2[y]] + q);
    assert(texts(p + seq![segs[y]] + q) =~= texts(p) + texts(seq![segs[y]]) + texts(q));
    assert(texts(p + seq![segs2[y]] + q) =~= texts(p) + texts(seq![segs2[y]]) + texts(q));
    lemma_concat_append(texts(p) + texts(seq![segs[y]]), texts(q));
    lemma_concat_append(texts(p), texts(seq![segs[y]]));
    lemma_concat_append(texts(p) + texts(seq![segs2[y]]), texts(q));
    lemma_concat_append(texts(p), texts(seq![segs2[y]]));
    assert(texts(seq![segs[y]]) =~= seq![segs[y].text]);
    assert(texts(seq![segs2[y]]) =~= seq![t2]);
    assert(seq![segs[y].text].drop_last() =~= Seq::<Seq<char>>::empty());
    assert(seq![t2].drop_last() =~= Seq::<Seq<char>>::empty());
    assert(concat_texts(Seq::<Seq<char>>::empty()) == Seq::<char>::empty());
    assert(concat_texts(seq![segs[y].text]) =~= segs[y].text);
    assert(concat_texts(seq![t2]) =~= t2);
    assert(concat_texts(texts(segs.subrange(s, e))) =~= concat_texts(texts(p)) + segs[y].text
        + concat_texts(texts(q)));
    assert(concat_texts(texts(segs2.subrange(s, e))) =~= concat_texts(texts(p)) + t2
        + concat_texts(texts(q)));
    assert(merged(segs2) =~= merged(segs).update(
        a,
        concat_texts(texts(p)) + t2 + concat_texts(texts(q)),
    ));
}

/// Inserting a fresh empty line-start segment right after a line's last
/// segment inserts one empty logical line right after that line.
pub proof fn lemma_merged_insert_line(segs: Seq<SegView>, y: int, n: SegView)
    requires
        segs.len() > 0,
        !segs[0].continuation,
        0 <= y < segs.len(),
        !n.continuation,
        n.text.len() == 0,
    ensures
        ({
            let e = line_end(segs, y);
            let a = line_ordinal(segs, y);
            &&& count_starts(segs.take(e)) == a + 1
            &&& merged(segs.insert(e, n)) == merged(segs).insert(a + 1, Seq::<char>::empty())
        }),
{
    let e = line_end(segs, y);
    let a = line_ordinal(segs, y);
    let s = line_start(segs, y);
    lemma_line_start_props(segs, y);
    lemma_line_end_props(segs, y);
    let ap = segs.take(e);
    let b = segs.subrange(e, segs.len() as int);
    assert(ap =~= segs.take(s) + segs.subrange(s, e));
    lemma_count_starts_append(segs.take(s), segs.subrange(s, e));
    lemma_count_starts_one_group(segs.subrange(s, e));
    assert(count_starts(ap) == a + 1);
    lemma_merged_count(ap);
    assert(segs =~= ap + b);
    assert(segs.insert(e, n) =~= ap + seq![n] + b);
    assert((ap + seq![n] + b) =~= (ap + seq![n]) + b);
    lemma_merged_append(ap, seq![n]);
    assert(seq![n].drop_last() =~= Seq::<SegView>::empty());
    assert(merged(Seq::<SegView>::empty()) == Seq::<Seq<char>>::empty());
    assert(merged(seq![n]) =~= seq![n.text]);
    assert(n.text =~= Seq::<char>::empty());
    if e < segs.len() {
        lemma_merged_append(ap + seq![n], b);
        lemma_merged_append(ap, b);
    } else {
        assert(b =~= Seq::<SegView>::empty());
        assert((ap + seq![n]) + b =~= ap + seq![n]);
        assert(ap + b =~= ap);
    }
    assert(merged(segs.insert(e, n)) == merged(ap) + seq![n.text] + merged(b));
    assert(merged(segs) == merged(ap) + merged(b));
    assert(merged(ap) + seq![n.text] + merged(b) =~= (merged(ap) + merged(b)).insert(
        a + 1,
        Seq::<char>::empty(),
    ));
}

/// Merging a line back into its predecessor: the predecessor's merged
/// line gains the whole of the removed line's text, nothing is lost.
#[verifier::rlimit(100)]
pub proof fn lemma_merged_delete_line(segs: Seq<SegView>, y: int)
    requires
        segs.len() > 0,
        !segs[0].continuation,
        1 <= y < segs.len(),
        !segs[y].continuation,
    ensures
        ({
            let a = line_ordinal(segs, y);
            &&& 1 <= a < merged(segs).len()
            &&& merged(delete_line_segs(segs, y)) == merged(segs).remove(a).update(
                a - 1,
                merged(segs)[a - 1] + merged(segs)[a],
            )
        }),
{
    let e = line_end(segs, y);
    let a = line_ordinal(segs, y);
    lemma_line_start_props(segs, y);
    assert(line_start(segs, y) == y);
    lemma_line_end_props(segs, y);
    lemma_merged_at(segs, y);
    let ap = segs.take(y);
    let c = segs.subrange(y + 1, e);
    let b = segs.subrange(e, segs.len() as int);
    assert(segs.subrange(0, y) =~= ap);
    lemma_merged_count(ap);
    lemma_count_starts_pos(ap);
    let lt = segs[y - 1].text;
    let ty = segs[y].text;
    // the previous line is the last line of the prefix
    lemma_merged_at(ap, y - 1);
    let sp = line_start(ap, y - 1);
    lemma_line_start_props(ap, y - 1);
    assert(line_end(ap, y - 1) == ap.len());
    assert(ap =~= ap.take(sp) + ap.subrange(sp, ap.len() as int));
    lemma_count_starts_append(ap.take(sp), ap.subrange(sp, ap.len() as int));
    lemma_count_starts_one_group(ap.subrange(sp, ap.len() as int));
    assert(line_ordinal(ap, y - 1) == a - 1);
    let prevline = merged(ap)[a - 1];
    // splicing the removed segment's text onto the previous segment
    // grows the prefix's last merged line by exactly that text
    assert(ap[y - 1] == segs[y - 1]);
    let ap2 = ap.update(y - 1, SegView { text: lt + ty, ..segs[y - 1] });
    lemma_merged_update_text(ap, y - 1, lt + ty);
    let pa = concat_texts(texts(ap.subrange(sp, y - 1)));
    let qa = concat_texts(texts(ap.subrange(y, ap.len() as int)));
    assert(ap.subrange(y, ap.len() as int) =~= Seq::<SegView>::empty());
    assert(texts(Seq::<SegView>::empty()) =~= Seq::<Seq<char>>::empty());
    assert(concat_texts(Seq::<Seq<char>>::empty()) == Seq::<char>::empty());
    assert(prevline == pa + lt + qa);
    assert(pa + (lt + ty) + qa =~= (pa + lt) + ty);
    assert(prevline =~= pa + lt);
    assert(merged(ap2) == merged(ap).update(a - 1, prevline + ty));
    // the deleted view merges like prefix + continuations + rest
    let d = delete_line_segs(segs, y);
    assert(d.len() == ((ap2 + c) + b).len());
    assert forall|i: int|
        0 <= i < d.len() implies (#[trigger] d[i]).continuation == ((ap2 + c) + b)[i].continuation
        && d[i].text == ((ap2 + c) + b)[i].text by {
        assert(segs.remove(y)[i] == (if i < y {
            segs[i]
        } else {
            segs[i + 1]
        }));
    }
    lemma_merged_flags_texts(d, (ap2 + c) + b);
    lemma_merged_append_conts(ap2, c);
    if e < segs.len() {
        lemma_merged_append(ap2 + c, b);
    } else {
        assert(b =~= Seq::<SegView>::empty());
        assert((ap2 + c) + b =~= ap2 + c);
        assert(merged(Seq::<SegView>::empty()) == Seq::<Seq<char>>::empty());
    }
    let ma = merged(ap);
    let tail = concat_texts(texts(c));
    assert(merged(ap2 + c) =~= ma.update(a - 1, prevline + ty + tail));
    assert(merged(d) == ma.update(a - 1, prevline + ty + tail) + merged(b));
    // the whole view decomposes around line `a`
    let linea = concat_texts(texts(segs.subrange(y, e)));
    assert(merged(segs) == ma + seq![linea] + merged(b));
    assert(a == ma.len());
    assert(merged(segs)[a - 1] == ma[a - 1]);
    assert(merged(segs)[a] == linea);
    // the removed line's text is its first segment plus its continuations
    assert(segs.subrange(y, e) =~= seq![segs[y]] + c);
    assert(texts(seq![segs[y]] + c) =~= seq![ty] + texts(c));
    lemma_concat_append(seq![ty], texts(c));
    assert(seq![ty].drop_last() =~= Seq::<Seq<char>>::empty());
    assert(concat_texts(seq![ty]) =~= ty);
    assert(linea =~= ty + tail);
    assert(prevline + ty + tail =~= prevline + linea);
    assert(merged(segs).remove(a).update(a - 1, merged(segs)[a - 1] + linea) =~= ma.update(
        a - 1,
        prevline + ty + tail,
    ) + merged(b));
}

/// Splicing one character into the middle part of a three-way split.
pub proof fn lemma_concat3_insert(p: Seq<char>, m: Seq<char>, s: Seq<char>, j: int, c: char)
    requires
        0 <= j <= m.len(),
    ensures
        p + m.insert(j, c) + s == (p + m + s).insert(p.len() + j, c),
{
    assert(p + m.insert(j, c) + s =~= (p + m + s).insert(p.len() + j, c));
}

/// Removing one character from the middle part of a three-way split.
pub proof fn lemma_concat3_remove(p: Seq<char>, m: Seq<char>, s: Seq<char>, j: int)
    requires
        0 <= j < m.len(),
    ensures
        p + m.remove(j) + s == (p + m + s).remove(p.len() + j),
{
    assert(p + m.remove(j) + s =~= (p + m + s).remove(p.len() + j));
}

/// How each edit changes the document's character count.
pub proof fn lemma_doc_chars_update_text(segs: Seq<SegView>, y: int, t2: Seq<char>)
    requires
        0 <= y < segs.len(),
    ensures
        doc_chars(segs.update(y, SegView { text: t2, ..segs[y] })) == doc_chars(segs)
            - segs[y].text.len() + t2.len(),
{
    let segs2 = segs.update(y, SegView { text: t2, ..segs[y] });
    lemma_concat_split_at(texts(segs), y);
    lemma_concat_split_at(texts(segs2), y);
    assert(texts(segs2).take(y) =~= texts(segs).take(y));
    assert(texts(segs2).subrange(y + 1, texts(segs2).len() as int) =~= texts(segs).subrange(
        y + 1,
        texts(segs).len() as int,
    ));
    assert(texts(segs2)[y] == t2);
    assert(texts(segs)[y] == segs[y].text);
}

pub proof fn lemma_doc_chars_insert_seg(segs: Seq<SegView>, e: int, n: SegView)
    requires
        0 <= e <= segs.len(),
    ensures
        doc_chars(segs.insert(e, n)) == doc_chars(segs) + n.text.len(),
{
    let segs2 = segs.insert(e, n);
    assert(texts(segs2) =~= texts(segs).insert(e, n.text));
    lemma_concat_split_at(texts(segs).insert(e, n.text), e);
    assert(texts(segs).insert(e, n.text).take(e) =~= texts(segs).take(e));
    assert(texts(segs).insert(e, n.text).subrange(e + 1, texts(segs).len() as int + 1) =~= texts(
        segs,
    ).subrange(e, texts(segs).len() as int));
    assert(texts(segs).insert(e, n.text)[e] == n.text);
    assert(texts(segs) =~= texts(segs).take(e) + texts(segs).subrange(
        e,
        texts(segs).len() as int,
    ));
    lemma_concat_append(texts(segs).take(e), texts(segs).subrange(e, texts(segs).len() as int));
    lemma_concat_append(
        texts(segs).take(e) + seq![n.text],
        texts(segs).subrange(e, texts(segs).len() as int),
    );
    lemma_concat_push(texts(segs).take(e), n.text);
    assert(texts(segs).take(e).push(n.text) =~= texts(segs).take(e) + seq![n.text]);
    assert(texts(segs2) =~= (texts(segs).take(e) + seq![n.text]) + texts(segs).subrange(
        e,
        texts(segs).len() as int,
    ));
}

pub proof fn lemma_doc_chars_delete_line(segs: Seq<SegView>, y: int)
    requires
        1 <= y < segs.len(),
    ensures
        doc_chars(delete_line_segs(segs, y)) == doc_chars(segs),
{
    let d = delete_line_segs(segs, y);
    let tt = texts(segs);
    let front = tt.take(y - 1);
    let back = tt.subrange(y + 1, tt.len() as int);
    assert(texts(d) =~= front + seq![segs[y - 1].text + segs[y].text] + back);
    assert(tt =~= ((front + seq![segs[y - 1].text]) + seq![segs[y].text]) + back);
    lemma_concat_append(front + seq![segs[y - 1].text + segs[y].text], back);
    lemma_concat_append(front, seq![segs[y - 1].text + segs[y].text]);
    lemma_concat_append((front + seq![segs[y - 1].text]) + seq![segs[y].text], back);
    lemma_concat_append(front + seq![segs[y - 1].text], seq![segs[y].text]);
    lemma_concat_append(front, seq![segs[y - 1].text]);
    assert(seq![segs[y - 1].text + segs[y].text].drop_last() =~= Seq::<Seq<char>>::empty());
    assert(seq![segs[y - 1].text].drop_last() =~= Seq::<Seq<char>>::empty());
    assert(seq![segs[y].text].drop_last() =~= Seq::<Seq<char>>::empty());
    assert(concat_texts(Seq::<Seq<char>>::empty()) == Seq::<char>::empty());
    assert(concat_texts(seq![segs[y - 1].text + segs[y].text]) =~= segs[y - 1].text
        + segs[y].text);
    assert(concat_texts(seq![segs[y - 1].text]) =~= segs[y - 1].text);
    assert(concat_texts(seq![segs[y].text]) =~= segs[y].text);
}

} // verus!

//! The reflow pass: re-derives the logical lines from the wrapped view,
//! re-wraps each against the width budget, and relocates the cursor to the
//! character position it occupied before the wrap points moved.

use vstd::prelude::*;

use crate::merge::{clone_chars, get_cursor_distance, normalize};
use crate::model::{
    canonical, concat_texts, count_starts, doc_chars, lemma_concat_append, lemma_concat_push,
    no_empty_middles,
    lemma_count_starts_append, lemma_count_starts_one_group, lemma_line_start_in_group,
    lemma_merged_append, lemma_merged_one_group, line_ordinal, line_start, merged, offset_of,
    texts, vsegs, Cursor, GlyphTable, SegView, Segment, TempCursor, WrapError,
};
use crate::wrap::{
    get_split, lemma_wrap_cursor_props, lemma_wrap_round_trip, lemma_wrap_state_shape, views_of,
    wrap_cursor, wrap_segs, wrap_state,
};

verus! {

/// The wrapped view of one logical line: its wrap segments, the first a
/// line start, the rest continuations, all owned by `owner`.
pub open spec fn line_group(t: GlyphTable, line: Seq<char>, w: u64, owner: int) -> Seq<SegView> {
    wrap_segs(t, line, w).map(
        |p: int, s: Seq<char>| SegView { text: s, continuation: p > 0, owner },
    )
}

/// The wrapped view of a whole document: every line's group in order,
/// owner ids assigned by position.
pub open spec fn reflow_segs(t: GlyphTable, lines: Seq<Seq<char>>, w: u64) -> Seq<SegView>
    decreases lines.len(),
{
    if lines.len() == 0 {
        Seq::empty()
    } else {
        reflow_segs(t, lines.drop_last(), w) + line_group(
            t,
            lines.last(),
            w,
            lines.len() - 1,
        )
    }
}

/// Where a cursor that sat at character offset `d` of line `a` lands in
/// the re-wrapped document.
pub open spec fn reflow_cursor(t: GlyphTable, lines: Seq<Seq<char>>, w: u64, a: int, d: int) -> Cursor {
    let before = reflow_segs(t, lines.take(a), w).len();
    let c = wrap_cursor(t, lines[a], w, d);
    Cursor { x: c.x, y: (before + c.y) as usize }
}

/// Every character of every line has a glyph metric.
pub open spec fn covers_lines(t: GlyphTable, lines: Seq<Seq<char>>) -> bool {
    forall|i: int| 0 <= i < lines.len() ==> t.covers(#[trigger] lines[i])
}

/// One full rebuild: merge the wrapped view back into logical lines,
/// express the (offset-corrected) cursor as a character offset within its
/// line, re-wrap every line, and relocate the cursor.  Fails exactly when
/// some character has no glyph metric; nothing is disturbed then.
#[verifier::loop_isolation(false)]
pub fn create_wrapped_buffer(
    rows: &Vec<Segment>,
    get_font_size: &GlyphTable,
    max_width: u64,
    cursor: &Cursor,
    temp_cursor: &TempCursor,
) -> (r: Result<(Vec<Segment>, Cursor), WrapError>)
    requires
        rows@.len() > 0,
        !rows@[0].continuation,
        (cursor.y as int + temp_cursor.y as int) < rows@.len(),
        (cursor.x as int + temp_cursor.x as int) <= rows@[cursor.y as int
            + temp_cursor.y as int].text@.len(),
        offset_of(
            vsegs(rows@),
            cursor.y as int + temp_cursor.y as int,
            cursor.x as int + temp_cursor.x as int,
        ) <= usize::MAX,
    ensures
        r is Ok <==> covers_lines(*get_font_size, merged(vsegs(rows@))),
        r is Err ==> r->Err_0 == WrapError::MissingGlyphMetric,
        r is Ok ==> ({
            let lines = merged(vsegs(rows@));
            let ay = cursor.y as int + temp_cursor.y as int;
            let ax = cursor.x as int + temp_cursor.x as int;
            &&& vsegs(r->Ok_0.0@) == reflow_segs(*get_font_size, lines, max_width)
            &&& r->Ok_0.1 == reflow_cursor(
                *get_font_size,
                lines,
                max_width,
                line_ordinal(vsegs(rows@), ay),
                offset_of(vsegs(rows@), ay, ax),
            )
        }),
{
    let ghost t = *get_font_size;
    let ghost segs0 = vsegs(rows@);
    let ghost lines = merged(segs0);
    let normal = normalize(rows);
    let n = rows.len();
    proof {
        assert(rows@.len() == n);
    }
    let ny = temp_cursor.y + cursor.y;
    let row_chars = rows[ny].text.len();
    proof {
        assert(rows@[ny as int].text@.len() == row_chars);
    }
    let nc = Cursor { x: temp_cursor.x + cursor.x, y: ny };
    proof {
        assert(segs0[nc.y as int] == rows@[nc.y as int]@);
    }
    let located = get_cursor_distance(rows, &nc);
    let distance = located.0;
    let active = located.1;

    let mut out: Vec<Segment> = Vec::new();
    let mut new_cursor = Cursor { x: 0, y: 0 };
    let mut idx: usize = 0;
    proof {
        assert(lines.take(0) =~= Seq::<Seq<char>>::empty());
    }
    while idx < normal.len()
        invariant
            0 <= idx <= normal@.len(),
            normal@.len() == lines.len(),
            forall|j: int|
                0 <= j < normal@.len() ==> (#[trigger] normal@[j]).text@ == lines[j],
            (active as int) < lines.len(),
            distance as int <= lines[active as int].len(),
            forall|k: int| 0 <= k < idx ==> t.covers(#[trigger] lines[k]),
            vsegs(out@) == reflow_segs(t, lines.take(idx as int), max_width),
            idx > active ==> new_cursor == reflow_cursor(
                t,
                lines,
                max_width,
                active as int,
                distance as int,
            ),
        decreases normal@.len() - idx,
    {
        let split_res = get_split(&normal[idx].text, get_font_size, max_width, distance);
        let pair = match split_res {
            Ok(pair) => pair,
            Err(e) => {
                proof {
                    assert(!t.covers(lines[idx as int]));
                }
                return Err(e);
            },
        };
        let split = pair.0;
        let sc = pair.1;
        let ghost gsegs = wrap_segs(t, lines[idx as int], max_width);
        let ghost group = line_group(t, lines[idx as int], max_width, idx as int);
        let base = out.len();
        let mut p: usize = 0;
        proof {
            assert(group.take(0) =~= Seq::<SegView>::empty());
            assert(vsegs(out@) + Seq::<SegView>::empty() =~= vsegs(out@));
        }
        while p < split.len()
            invariant
                0 <= p <= split@.len(),
                split@.len() == gsegs.len(),
                forall|q: int| 0 <= q < gsegs.len() ==> (#[trigger] split@[q])@ == gsegs[q],
                base == reflow_segs(t, lines.take(idx as int), max_width).len(),
                out@.len() == base + p,
                group == line_group(t, lines[idx as int], max_width, idx as int),
                gsegs == wrap_segs(t, lines[idx as int], max_width),
                (idx as int) < lines.len(),
                vsegs(out@) == reflow_segs(t, lines.take(idx as int), max_width) + group.take(
                    p as int,
                ),
            decreases split@.len() - p,
        {
            proof {
                assert(views_of(split@)[p as int] == split@[p as int]@);
            }
            let seg = Segment { text: clone_chars(&split[p]), continuation: p > 0, owner: idx };
            out.push(seg);
            proof {
                assert(group[p as int] == (SegView {
                    text: gsegs[p as int],
                    continuation: p as int > 0,
                    owner: idx as int,
                }));
                assert(group.take(p as int + 1) =~= group.take(p as int).push(group[p as int]));
                assert(vsegs(out@) =~= (reflow_segs(t, lines.take(idx as int), max_width)
                    + group.take(p as int)).push(seg@));
            }
            p = p + 1;
        }
        let seg_count = out.len();
        if idx == active {
            let line_len = normal[idx].text.len();
            proof {
                assert(seg_count as int == base + gsegs.len());
                assert(lines[idx as int].len() == line_len);
                crate::wrap::lemma_wrap_cursor_props(t, lines[idx as int], max_width, distance as int);
                assert((sc.y as int) < gsegs.len());
                assert((base as int) + (sc.y as int) < (seg_count as int));
            }
            new_cursor = Cursor { x: sc.x, y: base + sc.y };
        }
        proof {
            assert(group.take(group.len() as int) =~= group);
            assert(lines.take(idx as int + 1).drop_last() =~= lines.take(idx as int));
            assert(lines.take(idx as int + 1).last() == lines[idx as int]);
        }
        idx = idx + 1;
    }
    proof {
        assert(lines.take(lines.len() as int) =~= lines);
    }
    Ok((out, new_cursor))
}

/// The shape of one line's wrapped group: non-empty, a line start first,
/// continuations after, one owner, and the line's text held exactly.
pub proof fn lemma_line_group_shape(t: GlyphTable, line: Seq<char>, w: u64, owner: int)
    ensures
        ({
            let g = line_group(t, line, w, owner);
            &&& g.len() >= 1
            &&& !g[0].continuation
            &&& forall|p: int| 0 < p < g.len() ==> (#[trigger] g[p]).continuation
            &&& forall|p: int| 0 <= p < g.len() ==> (#[trigger] g[p]).owner == owner
            &&& forall|p: int| 1 <= p < g.len() ==> (#[trigger] g[p]).text.len() >= 1
            &&& (g[0].text.len() == 0 ==> g.len() == 1 && line.len() == 0)
            &&& texts(g) == wrap_segs(t, line, w)
            &&& concat_texts(texts(g)) == line
            &&& merged(g) == seq![line]
            &&& count_starts(g) == 1
        }),
{
    let g = line_group(t, line, w, owner);
    lemma_wrap_state_shape(t, line, w, line.len() as int);
    lemma_wrap_round_trip(t, line, w);
    assert(texts(g) =~= wrap_segs(t, line, w));
    if g[0].text.len() == 0 {
        if g.len() >= 2 {
            assert(wrap_segs(t, line, w)[0].len() == 0);
            assert(line.len() == 0);
            assert(wrap_state(t, line, w, 0).0.len() == 1);
        }
        assert(line.len() == 0);
        assert(wrap_state(t, line, w, 0).0.len() == 1);
    }
    lemma_merged_one_group(g);
    lemma_count_starts_one_group(g);
}

/// Wrapping a prefix of the lines yields a prefix of the wrapped view.
pub proof fn lemma_reflow_prefix(t: GlyphTable, lines: Seq<Seq<char>>, w: u64, k: int)
    requires
        0 <= k <= lines.len(),
    ensures
        reflow_segs(t, lines.take(k), w).len() <= reflow_segs(t, lines, w).len(),
        forall|i: int|
            0 <= i < reflow_segs(t, lines.take(k), w).len() ==> #[trigger] reflow_segs(
                t,
                lines,
                w,
            )[i] == reflow_segs(t, lines.take(k), w)[i],
    decreases lines.len(),
{
    if k == lines.len() {
        assert(lines.take(k) =~= lines);
    } else {
        assert(lines.take(k) =~= lines.drop_last().take(k));
        lemma_reflow_prefix(t, lines.drop_last(), w, k);
    }
}

/// What a whole wrap pass produces: a canonical wrapped view whose merge
/// is exactly the lines that went in, with one group per line and no
/// empty segment anywhere but alone on an empty line.
pub proof fn lemma_reflow_shape(t: GlyphTable, lines: Seq<Seq<char>>, w: u64)
    requires
        lines.len() >= 1,
    ensures
        ({
            let segs = reflow_segs(t, lines, w);
            &&& segs.len() >= lines.len()
            &&& canonical(segs)
            &&& count_starts(segs) == lines.len()
            &&& merged(segs) == lines
            &&& segs.last().owner == lines.len() - 1
            &&& no_empty_middles(segs)
            &&& doc_chars(segs) == concat_texts(lines).len()
        }),
    decreases lines.len(),
{
    let segs = reflow_segs(t, lines, w);
    let g = line_group(t, lines.last(), w, lines.len() - 1);
    lemma_line_group_shape(t, lines.last(), w, lines.len() - 1);
    if lines.len() == 1 {
        assert(lines.drop_last() =~= Seq::<Seq<char>>::empty());
        assert(reflow_segs(t, Seq::<Seq<char>>::empty(), w) == Seq::<SegView>::empty());
        assert(segs =~= g);
        lemma_count_starts_append(Seq::<SegView>::empty(), g);
        assert(merged(segs) == merged(g));
        assert(merged(g) =~= lines);
        assert(texts(segs) =~= texts(g));
        assert(concat_texts(lines) =~= concat_texts(seq![lines[0]]));
        assert(seq![lines[0]].drop_last() =~= Seq::<Seq<char>>::empty());
        assert(concat_texts(Seq::<Seq<char>>::empty()) == Seq::<char>::empty());
    } else {
        lemma_reflow_shape(t, lines.drop_last(), w);
        let prev = reflow_segs(t, lines.drop_last(), w);
        assert(segs == prev + g);
        lemma_merged_append(prev, g);
        assert(merged(segs) =~= lines);
        lemma_count_starts_append(prev, g);
        // canonical across the boundary
        assert forall|i: int|
            0 < i < segs.len() implies ((#[trigger] segs[i]).continuation <==> segs[i].owner
            == segs[i - 1].owner) && segs[i].owner == segs[i - 1].owner + (if segs[i].continuation {
            0int
        } else {
            1int
        }) by {
            if i < prev.len() {
                assert(segs[i] == prev[i]);
                assert(segs[i - 1] == prev[i - 1]);
            } else if i == prev.len() {
                assert(segs[i] == g[0]);
                assert(segs[i - 1] == prev.last());
            } else {
                assert(segs[i] == g[i - prev.len()]);
                assert(segs[i - 1] == g[i - 1 - prev.len()]);
            }
        }
        // no empty segment in the middle of a line
        assert forall|i: int|
            0 <= i < segs.len() && (#[trigger] segs[i]).text.len() == 0 implies !segs[i].continuation
            && (i + 1 == segs.len() || !segs[i + 1].continuation) by {
            if i < prev.len() {
                assert(segs[i] == prev[i]);
                if i + 1 < prev.len() {
                    assert(segs[i + 1] == prev[i + 1]);
                } else if i + 1 == prev.len() {
                    assert(segs[i + 1] == g[0]);
                }
            } else {
                assert(segs[i] == g[i - prev.len()]);
                assert(g[i - prev.len()].text.len() == 0);
                assert(i == prev.len());
                assert(g.len() == 1);
            }
        }
        assert(texts(segs) =~= texts(prev) + texts(g));
        lemma_concat_append(texts(prev), texts(g));
        lemma_concat_push(lines.drop_last(), lines.last());
        assert(lines.drop_last().push(lines.last()) =~= lines);
    }
}

/// Where the relocated cursor lands: inside the wrapped view, on its own
/// line, at the same character offset it was asked to keep — whatever the
/// width budget — with the same character right before it, and at column
/// 0 only on a line-start segment.
pub proof fn lemma_reflow_locate(t: GlyphTable, lines: Seq<Seq<char>>, w: u64, a: int, d: int)
    requires
        lines.len() >= 1,
        0 <= a < lines.len(),
        0 <= d <= lines[a].len(),
        lines[a].len() <= usize::MAX,
        reflow_segs(t, lines, w).len() <= usize::MAX,
    ensures
        ({
            let segs = reflow_segs(t, lines, w);
            let c = reflow_cursor(t, lines, w, a, d);
            &&& (c.y as int) < segs.len()
            &&& c.x as int <= segs[c.y as int].text.len()
            &&& line_start(segs, c.y as int) == reflow_segs(t, lines.take(a), w).len()
            &&& line_ordinal(segs, c.y as int) == a
            &&& offset_of(segs, c.y as int, c.x as int) == d
            &&& (c.x == 0 ==> !segs[c.y as int].continuation)
            &&& (d >= 1 ==> c.x >= 1)
            &&& (d >= 1 ==> segs[c.y as int].text[c.x as int - 1] == lines[a][d - 1])
        }),
{
    let segs = reflow_segs(t, lines, w);
    let base = reflow_segs(t, lines.take(a), w).len() as int;
    let g = line_group(t, lines[a], w, a);
    let gsegs = wrap_segs(t, lines[a], w);
    lemma_line_group_shape(t, lines[a], w, a);
    lemma_wrap_cursor_props(t, lines[a], w, d);
    lemma_reflow_prefix(t, lines, w, a);
    lemma_reflow_prefix(t, lines, w, a + 1);
    assert(lines.take(a + 1).drop_last() =~= lines.take(a));
    assert(lines.take(a + 1).last() == lines[a]);
    assert(reflow_segs(t, lines.take(a + 1), w) == reflow_segs(t, lines.take(a), w) + g);
    assert forall|p: int| 0 <= p < g.len() implies #[trigger] segs[base + p] == g[p] by {
        assert(reflow_segs(t, lines.take(a + 1), w)[base + p] == g[p]);
        assert(segs[base + p] == reflow_segs(t, lines.take(a + 1), w)[base + p]);
    }
    let wc = wrap_cursor(t, lines[a], w, d);
    let yy = base + wc.y as int;
    assert((wc.y as int) < gsegs.len());
    assert(gsegs.len() == g.len());
    assert(base + g.len() <= segs.len());
    assert(segs[yy] == g[wc.y as int]);
    assert(segs[yy].text == gsegs[wc.y as int]);
    let c = reflow_cursor(t, lines, w, a, d);
    assert(c.y as int == yy);
    assert(c.x == wc.x);
    // the cursor's line starts where its group starts
    assert(!segs[base].continuation);
    assert forall|i: int| base < i <= yy implies (#[trigger] segs[i]).continuation by {
        assert(segs[i] == g[i - base]);
    }
    lemma_line_start_in_group(segs, base, yy);
    // the line's position among the merged lines is the line's index
    assert(segs.take(base) =~= reflow_segs(t, lines.take(a), w));
    if a == 0 {
        assert(lines.take(0) =~= Seq::<Seq<char>>::empty());
        assert(reflow_segs(t, Seq::<Seq<char>>::empty(), w) == Seq::<SegView>::empty());
        assert(count_starts(Seq::<SegView>::empty()) == 0);
    } else {
        lemma_reflow_shape(t, lines.take(a), w);
    }
    // the offset comes back unchanged
    assert(segs.subrange(base, yy) =~= g.take(wc.y as int));
    assert(texts(g.take(wc.y as int)) =~= gsegs.take(wc.y as int));
    assert(concat_texts(gsegs.take(wc.y as int)).len() + wc.x == d);
}

} // verus!

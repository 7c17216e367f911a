//! The crate's headline guarantees, stated once over the specification
//! functions that the executable contracts are written in.

use vstd::prelude::*;

use crate::model::{line_ordinal, merged, offset_of, GlyphTable};
use crate::reflow::{lemma_reflow_locate, lemma_reflow_shape, reflow_cursor, reflow_segs};

verus! {

/// Round trip: merging the wrapped view that a wrap pass produced
/// reconstructs exactly the lines that went in — no characters gained,
/// lost or reordered.
pub proof fn law_merge_wrap_round_trip(t: GlyphTable, lines: Seq<Seq<char>>, w: u64)
    requires
        lines.len() >= 1,
    ensures
        merged(reflow_segs(t, lines, w)) == lines,
{
    lemma_reflow_shape(t, lines, w);
}

/// Cursor stability under a no-op reflow: re-wrapping an already
/// reflowed document with an unchanged width budget and unchanged text
/// reproduces the same wrapped view and the same cursor.
pub proof fn law_reflow_idempotent(t: GlyphTable, lines: Seq<Seq<char>>, w: u64, a: int, d: int)
    requires
        lines.len() >= 1,
        0 <= a < lines.len(),
        0 <= d <= lines[a].len(),
        lines[a].len() <= usize::MAX,
        reflow_segs(t, lines, w).len() <= usize::MAX,
    ensures
        ({
            let segs1 = reflow_segs(t, lines, w);
            let c1 = reflow_cursor(t, lines, w, a, d);
            let lines2 = merged(segs1);
            let a2 = line_ordinal(segs1, c1.y as int);
            let d2 = offset_of(segs1, c1.y as int, c1.x as int);
            &&& lines2 == lines
            &&& a2 == a
            &&& d2 == d
            &&& reflow_segs(t, lines2, w) == segs1
            &&& reflow_cursor(t, lines2, w, a2, d2) == c1
        }),
{
    lemma_reflow_shape(t, lines, w);
    lemma_reflow_locate(t, lines, w, a, d);
}

/// Cursor stability under a width change: whatever the new width budget,
/// the relocated cursor sits at the same character offset of the same
/// logical line, so the character just before it is unchanged.
pub proof fn law_cursor_offset_stable(t: GlyphTable, lines: Seq<Seq<char>>, w2: u64, a: int, d: int)
    requires
        lines.len() >= 1,
        0 <= a < lines.len(),
        0 <= d <= lines[a].len(),
        lines[a].len() <= usize::MAX,
        reflow_segs(t, lines, w2).len() <= usize::MAX,
    ensures
        ({
            let segs2 = reflow_segs(t, lines, w2);
            let c2 = reflow_cursor(t, lines, w2, a, d);
            &&& line_ordinal(segs2, c2.y as int) == a
            &&& offset_of(segs2, c2.y as int, c2.x as int) == d
            &&& (d >= 1 ==> segs2[c2.y as int].text[c2.x as int - 1] == lines[a][d - 1])
        }),
{
    lemma_reflow_locate(t, lines, w2, a, d);
}

/// Insert-then-backspace identity: inserting a character at any valid
/// cursor position, reflowing, and then backspacing once removes exactly
/// the inserted character, so the logical text returns to its pre-insert
/// value.
pub proof fn law_insert_then_backspace(
    t: GlyphTable,
    lines: Seq<Seq<char>>,
    w: u64,
    a: int,
    d: int,
    c: char,
)
    requires
        lines.len() >= 1,
        0 <= a < lines.len(),
        0 <= d <= lines[a].len(),
        lines[a].len() + 1 <= usize::MAX,
        reflow_segs(t, lines.update(a, lines[a].insert(d, c)), w).len() <= usize::MAX,
    ensures
        ({
            let lines1 = lines.update(a, lines[a].insert(d, c));
            let segs1 = reflow_segs(t, lines1, w);
            let c1 = reflow_cursor(t, lines1, w, a, d + 1);
            let a1 = line_ordinal(segs1, c1.y as int);
            let d1 = offset_of(segs1, c1.y as int, c1.x as int);
            let lines2 = merged(segs1).update(a1, merged(segs1)[a1].remove(d1 - 1));
            &&& c1.x >= 1
            &&& a1 == a
            &&& d1 == d + 1
            &&& lines2 == lines
        }),
{
    let lines1 = lines.update(a, lines[a].insert(d, c));
    lemma_reflow_shape(t, lines1, w);
    lemma_reflow_locate(t, lines1, w, a, d + 1);
    assert(lines1[a].remove(d) =~= lines[a]);
    assert(merged(reflow_segs(t, lines1, w)).update(a, lines1[a].remove(d)) =~= lines);
}

} // verus!

//! The edit operations: the four mutators applied to the wrapped segment
//! list in place, in wrapped coordinates.  Each returns the post-edit
//! cursor, still in pre-reflow coordinates; the following reflow pass
//! re-expresses it logically.

use vstd::prelude::*;

use crate::model::{
    canonical, delete_line_segs, lemma_canonical_owner_le, lemma_canonical_owner_mono,
    lemma_line_end_in_group, lemma_line_end_props, line_end, retag, vsegs, wf, Cursor, SegView,
    Segment, TempCursor,
};

verus! {

/// Inserts one character at the cursor; the cursor advances past it.
pub fn mut_type(cursor: &Cursor, buffer: &mut Vec<Segment>, value: char) -> (r: Cursor)
    requires
        (cursor.y as int) < old(buffer)@.len(),
        cursor.x as int <= old(buffer)@[cursor.y as int].text@.len(),
        old(buffer)@[cursor.y as int].text@.len() < usize::MAX,
    ensures
        final(buffer)@.len() == old(buffer)@.len(),
        final(buffer)@[cursor.y as int].text@ == old(buffer)@[cursor.y as int].text@.insert(
            cursor.x as int,
            value,
        ),
        final(buffer)@[cursor.y as int].continuation == old(buffer)@[cursor.y as int].continuation,
        final(buffer)@[cursor.y as int].owner == old(buffer)@[cursor.y as int].owner,
        forall|k: int|
            0 <= k < old(buffer)@.len() && k != cursor.y as int ==> #[trigger] final(buffer)@[k]
                == old(buffer)@[k],
        r == (Cursor { x: (cursor.x + 1) as usize, y: cursor.y }),
{
    let seg = &mut buffer[cursor.y];
    seg.text.insert(cursor.x, value);
    Cursor { x: cursor.x + 1, y: cursor.y }
}

/// Removes the character before the cursor; the cursor steps back onto
/// the removed position.
pub fn mut_backspace(cursor: &Cursor, buffer: &mut Vec<Segment>) -> (r: Cursor)
    requires
        (cursor.y as int) < old(buffer)@.len(),
        1 <= cursor.x,
        cursor.x as int <= old(buffer)@[cursor.y as int].text@.len(),
    ensures
        final(buffer)@.len() == old(buffer)@.len(),
        final(buffer)@[cursor.y as int].text@ == old(buffer)@[cursor.y as int].text@.remove(
            cursor.x - 1,
        ),
        final(buffer)@[cursor.y as int].continuation == old(buffer)@[cursor.y as int].continuation,
        final(buffer)@[cursor.y as int].owner == old(buffer)@[cursor.y as int].owner,
        forall|k: int|
            0 <= k < old(buffer)@.len() && k != cursor.y as int ==> #[trigger] final(buffer)@[k]
                == old(buffer)@[k],
        r == (Cursor { x: (cursor.x - 1) as usize, y: cursor.y }),
{
    let seg = &mut buffer[cursor.y];
    seg.text.remove(cursor.x - 1);
    Cursor { x: cursor.x - 1, y: cursor.y }
}

/// Opens a new, empty logical line right after the cursor's line: a fresh
/// line-start segment under an owner id no other segment uses.  Leaves
/// behind a one-shot one-line correction for the next locate pass, and
/// parks the cursor on the current line's last segment, so the corrected
/// position is the new segment's first column.
#[verifier::loop_isolation(false)]
#[verifier::rlimit(60)]
pub fn mut_new_line(cursor: &Cursor, buffer: &mut Vec<Segment>) -> (r: (TempCursor, Cursor))
    requires
        canonical(vsegs(old(buffer)@)),
        (cursor.y as int) < old(buffer)@.len(),
        old(buffer)@.len() < usize::MAX,
    ensures
        ({
            let e = line_end(vsegs(old(buffer)@), cursor.y as int);
            &&& vsegs(final(buffer)@) == vsegs(old(buffer)@).insert(
                e,
                SegView {
                    text: Seq::empty(),
                    continuation: false,
                    owner: vsegs(old(buffer)@).last().owner + 1,
                },
            )
            &&& wf(vsegs(final(buffer)@))
            &&& r.0 == (TempCursor { x: 0, y: 1 })
            &&& r.1 == (Cursor { x: 0, y: (e - 1) as usize })
            &&& final(buffer)@.len() == old(buffer)@.len() + 1
        }),
{
    let ghost segs = vsegs(old(buffer)@);
    proof {
        assert(segs.len() == old(buffer)@.len());
        lemma_line_end_props(segs, cursor.y as int);
    }
    let mut e: usize = cursor.y + 1;
    while e < buffer.len() && buffer[e].continuation
        invariant
            cursor.y < e <= buffer@.len(),
            buffer == old(buffer),
            forall|i: int| cursor.y < i < e ==> (#[trigger] segs[i]).continuation,
        decreases buffer@.len() - e,
    {
        proof {
            assert(segs[e as int] == buffer@[e as int]@);
        }
        e = e + 1;
    }
    proof {
        if (e as int) < segs.len() {
            assert(segs[e as int] == buffer@[e as int]@);
        }
        lemma_line_end_in_group(segs, cursor.y as int, e as int);
    }
    let last_owner = buffer[buffer.len() - 1].owner;
    proof {
        assert(segs.last() == buffer@[buffer@.len() - 1]@);
        lemma_canonical_owner_le(segs, segs.len() - 1);
    }
    let seg = Segment { text: Vec::new(), continuation: false, owner: last_owner + 1 };
    buffer.insert(e, seg);
    proof {
        let nseg = SegView {
            text: Seq::empty(),
            continuation: false,
            owner: segs.last().owner + 1,
        };
        let out = segs.insert(e as int, nseg);
        assert(vsegs(buffer@) =~= out);
        assert forall|i: int|
            0 < i < out.len() implies ((#[trigger] out[i]).continuation <==> out[i].owner == out[i
            - 1].owner) by {
            if i < e as int {
                assert(out[i] == segs[i]);
                assert(out[i - 1] == segs[i - 1]);
            } else if i == e as int {
                assert(out[i] == nseg);
                assert(out[i - 1] == segs[i - 1]);
                lemma_canonical_owner_mono(segs, i - 1, segs.len() - 1);
            } else if i == e as int + 1 {
                assert(out[i] == segs[i - 1]);
                assert(out[i - 1] == nseg);
                lemma_canonical_owner_le(segs, i - 1);
                lemma_canonical_owner_mono(segs, i - 1, segs.len() - 1);
            } else {
                assert(out[i] == segs[i - 1]);
                assert(out[i - 1] == segs[i - 2]);
            }
        }
        assert(out[0] == segs[0]);
    }
    (TempCursor { x: 0, y: 1 }, Cursor { x: 0, y: e - 1 })
}

/// The merged list is well formed again: the spliced previous segment
/// keeps its flags, the re-tagged run continues the previous line, and
/// the first segment past it still opens its own line.
#[verifier::rlimit(100)]
pub proof fn lemma_delete_line_wf(segs: Seq<SegView>, y0: int)
    requires
        canonical(segs),
        1 <= y0 < segs.len(),
        !segs[y0].continuation,
    ensures
        wf(delete_line_segs(segs, y0)),
        delete_line_segs(segs, y0).len() == segs.len() - 1,
{
    lemma_line_end_props(segs, y0);
    let e0 = line_end(segs, y0);
    let out = delete_line_segs(segs, y0);
    assert forall|k: int|
        0 <= k < out.len() implies (#[trigger] out[k]).continuation == (if k < y0 {
        segs[k].continuation
    } else {
        segs[k + 1].continuation
    }) && out[k].owner == (if k < y0 {
        segs[k].owner
    } else if k < e0 - 1 {
        segs[y0 - 1].owner
    } else {
        segs[k + 1].owner
    }) by {
        assert(segs.remove(y0)[k] == (if k < y0 {
            segs[k]
        } else {
            segs[k + 1]
        }));
    }
    assert(!out[0].continuation);
    assert forall|k: int|
        0 < k < out.len() implies ((#[trigger] out[k]).continuation <==> out[k].owner == out[k
        - 1].owner) by {
        if k < y0 {
            assert(out[k].continuation == segs[k].continuation);
            assert(out[k - 1].owner == segs[k - 1].owner);
        } else if k < e0 - 1 {
            // a re-tagged continuation of the removed line
            assert(segs[k + 1].continuation);
            assert(out[k].continuation);
            assert(out[k].owner == segs[y0 - 1].owner);
            if k == y0 {
                assert(out[k - 1].owner == segs[y0 - 1].owner);
            } else {
                assert(out[k - 1].owner == segs[y0 - 1].owner);
                assert(out[k - 1].continuation);
            }
        } else {
            // past the removed line: unchanged, and the first such
            // segment opens a line whose owner the previous one lacks
            assert(out[k].continuation == segs[k + 1].continuation);
            assert(out[k].owner == segs[k + 1].owner);
            if k == e0 - 1 {
                assert(!segs[k + 1].continuation);
                assert(out[k - 1].owner == segs[y0 - 1].owner);
                lemma_canonical_owner_mono(segs, y0 - 1, y0);
                lemma_canonical_owner_mono(segs, y0, k + 1);
                assert(segs[y0].owner == segs[y0 - 1].owner + 1);
                assert(out[k].owner > segs[y0 - 1].owner);
            } else {
                assert(out[k - 1].owner == segs[k].owner);
                assert(out[k].continuation == segs[k + 1].continuation);
            }
        }
    }
}

/// Merges the cursor's line into the previous one: the line's first
/// segment leaves the list with its text spliced onto the end of the
/// previous line's last segment, the rest of the line continues the
/// previous line, and the cursor lands where the previous line used to
/// end.  Under correct sequencing the cursor only ever sits on the
/// removed segment at column 0.
#[verifier::loop_isolation(false)]
#[verifier::rlimit(100)]
#[verifier::spinoff_prover]
pub fn mut_delete_line(cursor: &Cursor, buffer: &mut Vec<Segment>) -> (r: Cursor)
    requires
        canonical(vsegs(old(buffer)@)),
        1 <= cursor.y,
        (cursor.y as int) < old(buffer)@.len(),
        !old(buffer)@[cursor.y as int].continuation,
    ensures
        vsegs(final(buffer)@) == delete_line_segs(vsegs(old(buffer)@), cursor.y as int),
        wf(vsegs(final(buffer)@)),
        final(buffer)@.len() == old(buffer)@.len() - 1,
        r == (Cursor {
            x: old(buffer)@[cursor.y - 1].text@.len() as usize,
            y: (cursor.y - 1) as usize,
        }),
{
    let ghost segs = vsegs(old(buffer)@);
    let ghost y0 = cursor.y as int;
    proof {
        assert(segs[y0] == old(buffer)@[y0]@);
        assert(segs[y0 - 1] == old(buffer)@[y0 - 1]@);
        lemma_line_end_props(segs, y0);
    }
    let ghost e0 = line_end(segs, y0);
    let removed = buffer.remove(cursor.y);
    let x = buffer[cursor.y - 1].text.len();
    let mut spliced = removed.text;
    let seg = &mut buffer[cursor.y - 1];
    seg.text.append(&mut spliced);
    let prev_owner = buffer[cursor.y - 1].owner;
    proof {
        assert(buffer@[y0 - 1]@ == (SegView {
            text: segs[y0 - 1].text + segs[y0].text,
            ..segs[y0 - 1]
        }));
    }
    let mut i: usize = cursor.y;
    while i < buffer.len() && buffer[i].continuation
        invariant
            cursor.y as int <= i as int <= buffer@.len(),
            buffer@.len() == segs.len() - 1,
            prev_owner as int == segs[y0 - 1].owner,
            forall|k: int| 0 <= k < y0 - 1 ==> (#[trigger] buffer@[k])@ == segs[k],
            buffer@[y0 - 1]@ == (SegView {
                text: segs[y0 - 1].text + segs[y0].text,
                ..segs[y0 - 1]
            }),
            forall|k: int|
                y0 <= k < i as int ==> (#[trigger] buffer@[k])@ == (SegView {
                    owner: segs[y0 - 1].owner,
                    ..segs[k + 1]
                }),
            forall|k: int| i as int <= k < buffer@.len() ==> (#[trigger] buffer@[k])@ == segs[k + 1],
            forall|m: int| y0 < m < i as int + 1 ==> (#[trigger] segs[m]).continuation,
        decreases buffer@.len() - i,
    {
        proof {
            assert(buffer@[i as int]@ == segs[i as int + 1]);
        }
        let seg2 = &mut buffer[i];
        seg2.owner = prev_owner;
        i = i + 1;
    }
    proof {
        // the re-tagged run is exactly the rest of the removed line
        if (i as int) < buffer@.len() {
            assert(buffer@[i as int]@ == segs[i as int + 1]);
        }
        lemma_line_end_in_group(segs, y0, i as int + 1);
        let out = delete_line_segs(segs, y0);
        let base = segs.remove(y0).update(
            y0 - 1,
            SegView { text: segs[y0 - 1].text + segs[y0].text, ..segs[y0 - 1] },
        );
        assert forall|k: int| 0 <= k < buffer@.len() implies vsegs(buffer@)[k] == out[k] by {
            assert(vsegs(buffer@)[k] == buffer@[k]@);
            if k == y0 - 1 {
                assert(base[k] == (SegView {
                    text: segs[y0 - 1].text + segs[y0].text,
                    ..segs[y0 - 1]
                }));
            } else {
                assert(segs.remove(y0)[k] == (if k < y0 {
                    segs[k]
                } else {
                    segs[k + 1]
                }));
                assert(base[k] == segs.remove(y0)[k]);
            }
        }
        assert(vsegs(buffer@) =~= out);
        lemma_delete_line_wf(segs, y0);
    }
    Cursor { x, y: cursor.y - 1 }
}

/// The number of characters on the segment the cursor sits on.
pub fn get_row_len(buffer: &Vec<Segment>, cursor: &Cursor) -> (r: usize)
    requires
        (cursor.y as int) < buffer@.len(),
    ensures
        r == buffer@[cursor.y as int].text@.len(),
{
    buffer[cursor.y].text.len()
}

} // verus!

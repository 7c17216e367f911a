//! The logical line merger and the cursor locator: the two read-only
//! passes over the wrapped view that every reflow cycle begins with.

use vstd::prelude::*;

use crate::model::{
    concat_texts, count_starts, lemma_concat_append, lemma_concat_push, lemma_count_starts_pos,
    lemma_line_end_props, lemma_line_start_props, lemma_merged_at, lemma_merged_count,
    line_ordinal, line_start, merged, offset_of, texts, vsegs, Cursor, Segment,
};

verus! {

/// A copy of a character vector.
pub fn clone_chars(v: &Vec<char>) -> (r: Vec<char>)
    ensures
        r@ == v@,
{
    let r = v.clone();
    proof {
        assert(r@ =~= v@);
    }
    r
}

/// Reconstructs the logical lines from the wrapped view: one record per
/// logical line, in document order, each carrying the line's full text
/// and its 0-based position as its owner id.
#[verifier::loop_isolation(false)]
pub fn normalize(rows: &Vec<Segment>) -> (r: Vec<Segment>)
    requires
        rows@.len() > 0,
        !rows@[0].continuation,
    ensures
        r@.len() == merged(vsegs(rows@)).len(),
        forall|j: int|
            0 <= j < r@.len() ==> (#[trigger] r@[j]).text@ == merged(vsegs(rows@))[j]
                && !r@[j].continuation && r@[j].owner == j,
    decreases rows@.len(),
{
    let ghost segs = vsegs(rows@);
    let mut out: Vec<Segment> = Vec::new();
    let mut i: usize = 0;
    proof {
        assert(segs.take(0) =~= Seq::<crate::model::SegView>::empty());
    }
    while i < rows.len()
        invariant
            0 <= i <= rows@.len(),
            out@.len() == merged(segs.take(i as int)).len(),
            texts(vsegs(out@)) == merged(segs.take(i as int)),
            forall|j: int|
                0 <= j < out@.len() ==> !(#[trigger] out@[j]).continuation && out@[j].owner == j,
        decreases rows@.len() - i,
    {
        let ghost pre = segs.take(i as int);
        proof {
            assert(segs.take(i as int + 1).drop_last() =~= pre);
            assert(segs.take(i as int + 1).last() == segs[i as int]);
            assert(segs[i as int] == rows@[i as int]@);
        }
        if !rows[i].continuation {
            let rec = Segment {
                text: clone_chars(&rows[i].text),
                continuation: false,
                owner: out.len(),
            };
            out.push(rec);
            proof {
                assert(texts(vsegs(out@)) =~= texts(vsegs(out@.drop_last())).push(
                    rows@[i as int].text@,
                ));
            }
        } else {
            proof {
                assert(pre[0] == rows@[0]@);
                lemma_merged_count(pre);
                lemma_count_starts_pos(pre);
            }
            let last_opt = out.pop();
            match last_opt {
                Some(mut last) => {
                    let mut tail = clone_chars(&rows[i].text);
                    last.text.append(&mut tail);
                    out.push(last);
                    proof {
                        let rest = merged(pre);
                        assert(texts(vsegs(out@)) =~= rest.update(
                            rest.len() - 1,
                            rest.last() + rows@[i as int].text@,
                        ));
                    }
                },
                None => {
                    proof {
                        assert(false);
                    }
                },
            }
        }
        i = i + 1;
    }
    proof {
        assert(segs.take(rows@.len() as int) =~= segs);
        assert forall|j: int| 0 <= j < out@.len() implies (#[trigger] out@[j]).text@ == merged(
            vsegs(rows@),
        )[j] by {
            assert(texts(vsegs(out@))[j] == out@[j].text@);
        }
    }
    out
}

/// Converts a wrapped-view cursor into the character offset it occupies
/// within its logical line, together with the line's position among the
/// merged lines and the index of the line's first segment.
#[verifier::loop_isolation(false)]
pub fn get_cursor_distance(rows: &Vec<Segment>, cursor: &Cursor) -> (r: (usize, usize, usize))
    requires
        rows@.len() > 0,
        !rows@[0].continuation,
        (cursor.y as int) < rows@.len(),
        cursor.x as int <= rows@[cursor.y as int].text@.len(),
        offset_of(vsegs(rows@), cursor.y as int, cursor.x as int) <= usize::MAX,
    ensures
        r.0 as int == offset_of(vsegs(rows@), cursor.y as int, cursor.x as int),
        r.1 as int == line_ordinal(vsegs(rows@), cursor.y as int),
        r.2 as int == line_start(vsegs(rows@), cursor.y as int),
        (r.1 as int) < merged(vsegs(rows@)).len(),
        r.0 as int <= merged(vsegs(rows@))[r.1 as int].len(),
{
    let ghost segs = vsegs(rows@);
    let ghost y0 = cursor.y as int;
    proof {
        assert(segs[0] == rows@[0]@);
        lemma_line_start_props(segs, y0);
    }

    // Walk back to the first segment of the cursor's line.
    let mut start: usize = cursor.y;
    while rows[start].continuation
        invariant
            0 <= start <= cursor.y,
            line_start(segs, y0) == line_start(segs, start as int),
        decreases start,
    {
        proof {
            assert(segs[start as int] == rows@[start as int]@);
            assert(start != 0);
        }
        start = start - 1;
    }
    proof {
        assert(segs[start as int] == rows@[start as int]@);
        assert(line_start(segs, start as int) == start as int);
    }
    let ghost s0 = start as int;

    // Count the logical lines that precede this one.
    let mut ord: usize = 0;
    let mut i: usize = 0;
    proof {
        assert(segs.take(0) =~= Seq::<crate::model::SegView>::empty());
    }
    while i < start
        invariant
            0 <= i <= start,
            ord <= i,
            ord as int == count_starts(segs.take(i as int)),
        decreases start - i,
    {
        proof {
            assert(segs.take(i as int + 1).drop_last() =~= segs.take(i as int));
            assert(segs.take(i as int + 1).last() == segs[i as int]);
            assert(segs[i as int] == rows@[i as int]@);
        }
        if !rows[i].continuation {
            ord = ord + 1;
        }
        i = i + 1;
    }

    // Sum the characters on the line's segments before the cursor's.
    let mut dist: usize = 0;
    let mut j: usize = start;
    proof {
        assert(segs.subrange(s0, s0) =~= Seq::<crate::model::SegView>::empty());
        assert(concat_texts(texts(Seq::<crate::model::SegView>::empty())) == Seq::<char>::empty());
        assert(texts(Seq::<crate::model::SegView>::empty()) =~= Seq::<Seq<char>>::empty());
    }
    while j < cursor.y
        invariant
            s0 <= j <= y0,
            dist as int == concat_texts(texts(segs.subrange(s0, j as int))).len(),
        decreases cursor.y - j,
    {
        proof {
            let a = segs.subrange(s0, j as int);
            let b = segs.subrange(s0, j as int + 1);
            assert(b =~= a.push(segs[j as int]));
            assert(texts(b) =~= texts(a).push(segs[j as int].text));
            lemma_concat_push(texts(a), segs[j as int].text);
            assert(segs[j as int] == rows@[j as int]@);
            // the partial sum stays under the full offset
            let c = segs.subrange(s0, y0);
            assert(c =~= b + segs.subrange(j as int + 1, y0));
            assert(texts(c) =~= texts(b) + texts(segs.subrange(j as int + 1, y0)));
            lemma_concat_append(texts(b), texts(segs.subrange(j as int + 1, y0)));
        }
        dist = dist + rows[j].text.len();
        j = j + 1;
    }
    let d = dist + cursor.x;

    proof {
        lemma_merged_at(segs, y0);
        let e0 = crate::model::line_end(segs, y0);
        lemma_line_end_props(segs, y0);
        let g = segs.subrange(s0, e0);
        assert(g =~= segs.subrange(s0, y0) + segs.subrange(y0, e0));
        assert(texts(g) =~= texts(segs.subrange(s0, y0)) + texts(segs.subrange(y0, e0)));
        lemma_concat_append(texts(segs.subrange(s0, y0)), texts(segs.subrange(y0, e0)));
        let h = segs.subrange(y0, e0);
        assert(h =~= seq![segs[y0]] + segs.subrange(y0 + 1, e0));
        assert(texts(h) =~= seq![segs[y0].text] + texts(segs.subrange(y0 + 1, e0)));
        lemma_concat_append(seq![segs[y0].text], texts(segs.subrange(y0 + 1, e0)));
        assert(seq![segs[y0].text].drop_last() =~= Seq::<Seq<char>>::empty());
        assert(concat_texts(Seq::<Seq<char>>::empty()) == Seq::<char>::empty());
        assert(concat_texts(seq![segs[y0].text]) =~= segs[y0].text);
        assert(segs[y0] == rows@[y0]@);
        assert(segs.take(s0) =~= segs.subrange(0, s0));
    }
    (d, ord, start)
}

} // verus!

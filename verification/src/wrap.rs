//! The line wrapper: splits one logical line's text into width-bounded
//! segments, replaying a target character offset to the segment and column
//! the offset now falls on.

use vstd::prelude::*;

use crate::model::{concat_texts, lemma_concat_push, Cursor, GlyphTable, WrapError};

verus! {

/// The summed advance widths of one segment's characters.
pub open spec fn seg_width(t: GlyphTable, s: Seq<char>) -> int
    decreases s.len(),
{
    if s.len() == 0 {
        0
    } else {
        seg_width(t, s.drop_last()) + t.adv(s.last())
    }
}

/// The wrapper's state after the first `i` characters of `text` have been
/// placed: the segments so far, and the running width of the last one.
///
/// A character whose advance would push the running width over the budget
/// opens a new segment, and the running width restarts at zero — the
/// overflowing character's own width is not carried into the new segment.
/// A character met while the current segment is still empty is placed
/// there regardless of its width, so no character is ever dropped.
pub open spec fn wrap_state(t: GlyphTable, text: Seq<char>, w: u64, i: int) -> (Seq<Seq<char>>, int)
    decreases i,
{
    if i <= 0 {
        (seq![Seq::<char>::empty()], 0)
    } else {
        let prev = wrap_state(t, text, w, i - 1);
        let c = text[i - 1];
        let a = t.adv(c);
        if prev.0.last().len() > 0 && prev.1 + a > w {
            (prev.0.push(seq![c]), 0)
        } else {
            (prev.0.update(prev.0.len() - 1, prev.0.last().push(c)), prev.1 + a)
        }
    }
}

/// The wrapped segments of one logical line.
pub open spec fn wrap_segs(t: GlyphTable, text: Seq<char>, w: u64) -> Seq<Seq<char>> {
    wrap_state(t, text, w, text.len() as int).0
}

/// Wrapped coordinates, within this line's segments, right after the
/// `j`-th placed character; the line's very start for `j == 0`.
pub open spec fn wrap_cursor_at(t: GlyphTable, text: Seq<char>, w: u64, j: int) -> Cursor {
    if j <= 0 {
        Cursor { x: 0, y: 0 }
    } else {
        let st = wrap_state(t, text, w, j);
        Cursor { x: st.0.last().len() as usize, y: (st.0.len() - 1) as usize }
    }
}

/// Where character offset `d` of the line lands after wrapping.  An offset
/// beyond the end of the line settles at the last character placed.
pub open spec fn wrap_cursor(t: GlyphTable, text: Seq<char>, w: u64, d: int) -> Cursor {
    wrap_cursor_at(
        t,
        text,
        w,
        if d <= text.len() {
            d
        } else {
            text.len() as int
        },
    )
}

/// The views of a list of character vectors.
pub open spec fn views_of(vs: Seq<Vec<char>>) -> Seq<Seq<char>> {
    vs.map_values(|v: Vec<char>| v@)
}

/// Splits one logical line's text into segments that respect `max_width`,
/// and replays `cursor_distance` to the coordinates it now falls on.
/// Fails exactly when some character of the line has no glyph metric.
#[verifier::loop_isolation(false)]
pub fn get_split(value: &Vec<char>, get_sizes: &GlyphTable, max_width: u64, cursor_distance: usize)
    -> (r: Result<(Vec<Vec<char>>, Cursor), WrapError>)
    ensures
        r is Ok <==> get_sizes.covers(value@),
        r is Err ==> r->Err_0 == WrapError::MissingGlyphMetric,
        r is Ok ==> views_of(r->Ok_0.0@) == wrap_segs(*get_sizes, value@, max_width),
        r is Ok ==> r->Ok_0.1 == wrap_cursor(*get_sizes, value@, max_width, cursor_distance as int),
{
    let ghost t = *get_sizes;
    let mut done: Vec<Vec<char>> = Vec::new();
    let mut cur_seg: Vec<char> = Vec::new();
    let mut total: u64 = 0;
    let mut cur = Cursor { x: 0, y: 0 };
    let mut i: usize = 0;
    while i < value.len()
        invariant
            0 <= i <= value@.len(),
            forall|k: int| 0 <= k < i ==> (#[trigger] t.spec_lookup(value@[k])) is Some,
            views_of(done@).push(cur_seg@) == wrap_state(t, value@, max_width, i as int).0,
            total as int == wrap_state(t, value@, max_width, i as int).1,
            total <= max_width || cur_seg@.len() == 1,
            cur_seg@.len() == 0 ==> total == 0,
            cur == wrap_cursor_at(
                t,
                value@,
                max_width,
                if cursor_distance <= i {
                    cursor_distance as int
                } else {
                    i as int
                },
            ),
        decreases value@.len() - i,
    {
        let c = value[i];
        let a = match get_sizes.lookup(c) {
            Some(a) => a,
            None => {
                return Err(WrapError::MissingGlyphMetric);
            },
        };
        let ghost st_pre = wrap_state(t, value@, max_width, i as int);
        if cur_seg.len() > 0 && (total > max_width || a > max_width - total) {
            let full = cur_seg;
            done.push(full);
            cur_seg = Vec::new();
            cur_seg.push(c);
            total = 0;
            proof {
                assert(views_of(done@) =~= st_pre.0);
                assert(cur_seg@ =~= seq![c]);
                assert(views_of(done@).push(cur_seg@) =~= st_pre.0.push(seq![c]));
            }
        } else {
            cur_seg.push(c);
            total = total + a;
            proof {
                assert(views_of(done@).push(cur_seg@) =~= st_pre.0.update(
                    st_pre.0.len() - 1,
                    st_pre.0.last().push(c),
                ));
            }
        }
        if cursor_distance > i {
            cur = Cursor { x: cur_seg.len(), y: done.len() };
        }
        i = i + 1;
    }
    let mut out = done;
    out.push(cur_seg);
    proof {
        assert(views_of(out@) =~= views_of(out@.drop_last()).push(cur_seg@));
    }
    Ok((out, cur))
}

pub proof fn lemma_seg_width_push(t: GlyphTable, s: Seq<char>, c: char)
    ensures
        seg_width(t, s.push(c)) == seg_width(t, s) + t.adv(c),
{
    assert(s.push(c).drop_last() =~= s);
    assert(s.push(c).last() == c);
}

pub proof fn lemma_seg_width_singleton(t: GlyphTable, s: Seq<char>)
    requires
        s.len() == 1,
    ensures
        seg_width(t, s) == t.adv(s[0]),
{
    assert(s.drop_last() =~= Seq::<char>::empty());
    assert(seg_width(t, Seq::<char>::empty()) == 0);
    assert(s.last() == s[0]);
}

/// Everything the wrapper's fold maintains: segments after the first are
/// never empty, the first is empty only before any character was placed,
/// every already-closed segment respects the budget up to the character
/// that opened it, and the running width describes the open segment.
pub proof fn lemma_wrap_state_shape(t: GlyphTable, text: Seq<char>, w: u64, i: int)
    requires
        0 <= i <= text.len(),
    ensures
        ({
            let st = wrap_state(t, text, w, i);
            &&& st.0.len() >= 1
            &&& st.0.len() <= i + 1
            &&& st.0.last().len() <= i
            &&& forall|k: int| 1 <= k < st.0.len() ==> (#[trigger] st.0[k]).len() >= 1
            &&& (st.0[0].len() == 0 <==> i == 0)
            &&& (st.0.len() >= 2 ==> st.0[0].len() == 1 || seg_width(t, st.0[0]) <= w)
            &&& forall|k: int|
                1 <= k < st.0.len() - 1 ==> seg_width(t, #[trigger] st.0[k]) - t.adv(
                    st.0[k][0],
                ) <= w
            &&& st.1 == (if st.0.len() == 1 {
                seg_width(t, st.0[0])
            } else {
                seg_width(t, st.0.last()) - t.adv(st.0.last()[0])
            })
            &&& (st.1 <= w || st.0.last().len() == 1)
            &&& st.1 >= 0
        }),
    decreases i,
{
    if i <= 0 {
        let st = wrap_state(t, text, w, i);
        assert(st.0.last() == st.0[0]);
        assert(seg_width(t, Seq::<char>::empty()) == 0);
    } else {
        lemma_wrap_state_shape(t, text, w, i - 1);
        let p = wrap_state(t, text, w, i - 1);
        let st = wrap_state(t, text, w, i);
        let c = text[i - 1];
        let a = t.adv(c);
        assert(a >= 0);
        if p.0.last().len() > 0 && p.1 + a > w {
            assert(st.0 == p.0.push(seq![c]));
            assert(st.0.last() == seq![c]);
            lemma_seg_width_singleton(t, seq![c]);
            let kc = p.0.len() - 1;
            assert(st.0[kc] == p.0.last());
            if kc >= 1 && p.0.last().len() == 1 {
                lemma_seg_width_singleton(t, p.0.last());
            }
        } else {
            let last0 = p.0.last();
            assert(st.0 == p.0.update(p.0.len() - 1, last0.push(c)));
            assert(st.0.last() == last0.push(c));
            lemma_seg_width_push(t, last0, c);
            if last0.len() > 0 {
                assert(last0.push(c)[0] == last0[0]);
            }
        }
    }
}

/// Wrap soundness: a segment's width never exceeds the budget, except that
/// the character that opened a segment is not counted against it — so a
/// lone character wider than the whole budget still gets a segment.
pub proof fn lemma_wrap_soundness(t: GlyphTable, text: Seq<char>, w: u64)
    ensures
        wrap_segs(t, text, w).len() >= 1,
        forall|k: int| 1 <= k < wrap_segs(t, text, w).len() ==> (#[trigger] wrap_segs(t, text, w)[k]).len() >= 1,
        wrap_segs(t, text, w)[0].len() <= 1 || seg_width(t, wrap_segs(t, text, w)[0]) <= w,
        forall|k: int|
            1 <= k < wrap_segs(t, text, w).len() ==> seg_width(t, #[trigger] wrap_segs(t, text, w)[k])
                - t.adv(wrap_segs(t, text, w)[k][0]) <= w,
{
    let n = text.len() as int;
    lemma_wrap_state_shape(t, text, w, n);
    let st = wrap_state(t, text, w, n);
    let last = st.0.len() - 1;
    if st.0.len() == 1 {
        if st.1 > w {
            assert(st.0.last().len() == 1);
        }
    } else {
        if st.1 > w {
            lemma_seg_width_singleton(t, st.0.last());
        }
        assert(st.0[last] == st.0.last());
    }
}

/// The characters of the wrapped segments, joined back together, are
/// exactly the first `i` characters of the line.
pub proof fn lemma_wrap_round_trip_at(t: GlyphTable, text: Seq<char>, w: u64, i: int)
    requires
        0 <= i <= text.len(),
    ensures
        concat_texts(wrap_state(t, text, w, i).0) == text.take(i),
    decreases i,
{
    if i <= 0 {
        let st = wrap_state(t, text, w, i);
        assert(st.0.drop_last() =~= Seq::<Seq<char>>::empty());
        assert(concat_texts(Seq::<Seq<char>>::empty()) == Seq::<char>::empty());
        assert(concat_texts(st.0) =~= text.take(i));
    } else {
        lemma_wrap_round_trip_at(t, text, w, i - 1);
        lemma_wrap_state_shape(t, text, w, i - 1);
        let p = wrap_state(t, text, w, i - 1);
        let st = wrap_state(t, text, w, i);
        let c = text[i - 1];
        if p.0.last().len() > 0 && p.1 + t.adv(c) > w {
            lemma_concat_push(p.0, seq![c]);
            assert(concat_texts(st.0) =~= text.take(i - 1) + seq![c]);
            assert(text.take(i - 1) + seq![c] =~= text.take(i));
        } else {
            let last0 = p.0.last();
            assert(st.0.drop_last() =~= p.0.drop_last());
            assert(st.0.last() == last0.push(c));
            assert(concat_texts(p.0) == concat_texts(p.0.drop_last()) + last0);
            assert(concat_texts(st.0) == concat_texts(p.0.drop_last()) + last0.push(c));
            assert(concat_texts(p.0.drop_last()) + last0.push(c) =~= (concat_texts(p.0.drop_last())
                + last0).push(c));
            assert(text.take(i - 1).push(c) =~= text.take(i));
        }
    }
}

/// Round trip: wrapping loses, gains and reorders nothing.
pub proof fn lemma_wrap_round_trip(t: GlyphTable, text: Seq<char>, w: u64)
    ensures
        concat_texts(wrap_segs(t, text, w)) == text,
{
    lemma_wrap_round_trip_at(t, text, w, text.len() as int);
    assert(text.take(text.len() as int) =~= text);
}

/// Later characters never disturb what the fold has already built: old
/// segments are frozen, and the open segment only grows at its end.
pub proof fn lemma_wrap_state_mono(t: GlyphTable, text: Seq<char>, w: u64, i: int, j: int)
    requires
        0 <= i <= j <= text.len(),
    ensures
        ({
            let a = wrap_state(t, text, w, i);
            let b = wrap_state(t, text, w, j);
            &&& a.0.len() <= b.0.len()
            &&& forall|k: int| 0 <= k < a.0.len() - 1 ==> #[trigger] b.0[k] == a.0[k]
            &&& a.0.last().len() <= b.0[a.0.len() - 1].len()
            &&& b.0[a.0.len() - 1].take(a.0.last().len() as int) == a.0.last()
        }),
    decreases j - i,
{
    let a = wrap_state(t, text, w, i);
    lemma_wrap_state_shape(t, text, w, i);
    if j == i {
        assert(a.0[a.0.len() - 1] == a.0.last());
        assert(a.0.last().take(a.0.last().len() as int) =~= a.0.last());
    } else {
        lemma_wrap_state_mono(t, text, w, i, j - 1);
        lemma_wrap_state_shape(t, text, w, j - 1);
        let p = wrap_state(t, text, w, j - 1);
        let b = wrap_state(t, text, w, j);
        let c = text[j - 1];
        let ai = a.0.len() - 1;
        if p.0.last().len() > 0 && p.1 + t.adv(c) > w {
            assert(b.0 == p.0.push(seq![c]));
            assert(b.0[ai] == p.0[ai]);
        } else {
            let last0 = p.0.last();
            assert(b.0 == p.0.update(p.0.len() - 1, last0.push(c)));
            if ai < p.0.len() - 1 {
                assert(b.0[ai] == p.0[ai]);
            } else {
                assert(ai == p.0.len() - 1);
                assert(b.0[ai] == last0.push(c));
                assert(last0.push(c).take(a.0.last().len() as int) =~= last0.take(
                    a.0.last().len() as int,
                ));
            }
        }
    }
}

/// Where the wrapper puts a replayed offset: always inside the produced
/// segments, one past a character exactly when the offset is positive, and
/// at a position whose earlier-segment character count restores the
/// offset.  The character right before the cursor is the character right
/// before the offset.
pub proof fn lemma_wrap_cursor_props(t: GlyphTable, text: Seq<char>, w: u64, d: int)
    requires
        0 <= d <= text.len(),
        text.len() <= usize::MAX,
    ensures
        ({
            let segs = wrap_segs(t, text, w);
            let c = wrap_cursor(t, text, w, d);
            &&& (c.y as int) < segs.len()
            &&& c.x as int <= segs[c.y as int].len()
            &&& concat_texts(segs.take(c.y as int)).len() + c.x == d
            &&& (d == 0 ==> c == Cursor { x: 0, y: 0 })
            &&& (d >= 1 ==> c.x >= 1)
            &&& (d >= 1 ==> segs[c.y as int][c.x - 1] == text[d - 1])
        }),
{
    let n = text.len() as int;
    let segs = wrap_segs(t, text, w);
    let c = wrap_cursor(t, text, w, d);
    lemma_wrap_state_shape(t, text, w, n);
    if d == 0 {
        assert(segs.take(0) =~= Seq::<Seq<char>>::empty());
        assert(concat_texts(Seq::<Seq<char>>::empty()) == Seq::<char>::empty());
    } else {
        let st = wrap_state(t, text, w, d);
        lemma_wrap_state_shape(t, text, w, d);
        lemma_wrap_state_mono(t, text, w, d, n);
        lemma_wrap_round_trip_at(t, text, w, d);
        let y = st.0.len() - 1;
        let x = st.0.last().len() as int;
        assert(st.0.last().len() >= 1);
        assert(st.0 =~= st.0.take(y).push(st.0.last()));
        lemma_concat_push(st.0.take(y), st.0.last());
        assert(concat_texts(st.0) == concat_texts(st.0.take(y)) + st.0.last());
        assert(concat_texts(st.0).len() == d);
        assert(segs.take(y) =~= st.0.take(y));
        assert(concat_texts(segs.take(y)).len() + x == d);
        assert(segs[y].take(x) == st.0.last());
        assert(segs[y][x - 1] == segs[y].take(x)[x - 1]);
        assert(st.0.last()[x - 1] == (concat_texts(st.0.take(y)) + st.0.last())[d - 1]);
        assert(text.take(d)[d - 1] == text[d - 1]);
    }
}

/// With a budget below every character's width, wrapping degenerates to
/// one segment per character — never to an empty segment list.
pub proof fn lemma_wrap_tiny_budget(t: GlyphTable, text: Seq<char>, w: u64, i: int)
    requires
        0 <= i <= text.len(),
        i >= 1,
        forall|k: int| 0 <= k < text.len() ==> t.adv(#[trigger] text[k]) > w,
    ensures
        wrap_state(t, text, w, i).0 == text.take(i).map_values(|c: char| seq![c]),
        wrap_state(t, text, w, i).1 == (if i == 1 {
            t.adv(text[0])
        } else {
            0int
        }),
    decreases i,
{
    let st = wrap_state(t, text, w, i);
    let c = text[i - 1];
    if i == 1 {
        let p = wrap_state(t, text, w, 0);
        assert(p.0.last().len() == 0);
        assert(st.0 == p.0.update(0, p.0.last().push(c)));
        assert(st.0 =~= text.take(1).map_values(|ch: char| seq![ch]));
    } else {
        lemma_wrap_tiny_budget(t, text, w, i - 1);
        let p = wrap_state(t, text, w, i - 1);
        assert(p.0.last() == text.take(i - 1).map_values(|ch: char| seq![ch]).last());
        assert(p.0.last() == seq![text[i - 2]]);
        assert(p.1 + t.adv(c) > w);
        assert(st.0 == p.0.push(seq![c]));
        assert(st.0 =~= text.take(i).map_values(|ch: char| seq![ch]));
    }
}

/// Every character wider than the budget: one segment per character.
pub proof fn lemma_tiny_budget(t: GlyphTable, text: Seq<char>, w: u64)
    requires
        text.len() >= 1,
        forall|k: int| 0 <= k < text.len() ==> t.adv(#[trigger] text[k]) > w,
    ensures
        wrap_segs(t, text, w).len() == text.len(),
        forall|k: int| 0 <= k < text.len() ==> #[trigger] wrap_segs(t, text, w)[k] == seq![text[k]],
{
    lemma_wrap_tiny_budget(t, text, w, text.len() as int);
    assert(text.take(text.len() as int) =~= text);
    assert forall|k: int| 0 <= k < text.len() implies #[trigger] wrap_segs(t, text, w)[k]
        == seq![text[k]] by {
        assert(wrap_segs(t, text, w)[k] == text.map_values(|c: char| seq![c])[k]);
    }
}

} // verus!

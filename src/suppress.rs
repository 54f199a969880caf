//! Greedy overlap suppression.

use vstd::prelude::*;
use crate::boxes::{BoundingBox, BoxView, views};

verus! {

pub open spec fn spec_min(a: int, b: int) -> int {
    if a <= b { a } else { b }
}

pub open spec fn spec_max(a: int, b: int) -> int {
    if a >= b { a } else { b }
}

/// Length of the overlap of `[a1, a2)` and `[b1, b2)`, zero when they are apart.
pub open spec fn overlap_len(a1: int, a2: int, b1: int, b2: int) -> int {
    let d = spec_min(a2, b2) - spec_max(a1, b1);
    if d > 0 { d } else { 0 }
}

/// Area of the intersection of two boxes.
pub open spec fn overlap_area(a: BoxView, b: BoxView) -> int {
    overlap_len(a.x1, a.x2, b.x1, b.x2) * overlap_len(a.y1, a.y2, b.y1, b.y2)
}

/// `b` is suppressed by the kept box `kept` when the share of `b`'s own area
/// that lies inside `kept` exceeds the ratio `num / den`.
pub open spec fn suppressed(kept: BoxView, b: BoxView, num: int, den: int) -> bool {
    overlap_area(kept, b) * den > num * b.area()
}

/// Index of the box with the smallest bottom edge; among equal bottom edges,
/// the one that comes last.
pub open spec fn pick_index(s: Seq<BoxView>) -> int
    decreases s.len(),
{
    if s.len() <= 1 {
        0
    } else {
        let p = pick_index(s.drop_last());
        if s.last().y2 <= s[p].y2 {
            s.len() - 1
        } else {
            p
        }
    }
}

/// The boxes of `s` that `kept` does not suppress, in order.
pub open spec fn survivors(kept: BoxView, s: Seq<BoxView>, num: int, den: int) -> Seq<BoxView>
    decreases s.len(),
{
    if s.len() == 0 {
        Seq::empty()
    } else {
        let rest = survivors(kept, s.drop_last(), num, den);
        if suppressed(kept, s.last(), num, den) {
            rest
        } else {
            rest.push(s.last())
        }
    }
}

/// Greedy suppression with at most `fuel` rounds: keep the picked box, drop
/// what it suppresses, repeat on the rest.
pub open spec fn suppress_rounds(s: Seq<BoxView>, num: int, den: int, fuel: nat) -> Seq<BoxView>
    decreases fuel,
{
    if fuel == 0 || s.len() == 0 {
        Seq::empty()
    } else {
        let k = pick_index(s);
        let cur = s[k];
        seq![cur] + suppress_rounds(survivors(cur, s.remove(k), num, den), num, den, (fuel - 1) as nat)
    }
}

/// The boxes that greedy suppression keeps from `s`, in the order kept.
pub open spec fn suppress_of(s: Seq<BoxView>, num: int, den: int) -> Seq<BoxView> {
    suppress_rounds(s, num, den, s.len())
}

proof fn lemma_pick_index_bounds(s: Seq<BoxView>)
    requires
        s.len() > 0,
    ensures
        0 <= pick_index(s) < s.len(),
    decreases s.len(),
{
    if s.len() > 1 {
        lemma_pick_index_bounds(s.drop_last());
    }
}

proof fn lemma_survivors(kept: BoxView, s: Seq<BoxView>, num: int, den: int)
    ensures
        survivors(kept, s, num, den).len() <= s.len(),
        forall|i: int|
            0 <= i < survivors(kept, s, num, den).len() ==> s.contains(
                #[trigger] survivors(kept, s, num, den)[i],
            ) && !suppressed(kept, survivors(kept, s, num, den)[i], num, den),
    decreases s.len(),
{
    if s.len() > 0 {
        lemma_survivors(kept, s.drop_last(), num, den);
        let r = survivors(kept, s.drop_last(), num, den);
        assert forall|i: int| 0 <= i < r.len() implies s.contains(#[trigger] r[i]) by {
            let j = choose|j: int| 0 <= j < s.drop_last().len() && s.drop_last()[j] == r[i];
            assert(s[j] == r[i]);
        }
        assert(s[s.len() - 1] == s.last());
    }
}

proof fn lemma_rounds_fuel(s: Seq<BoxView>, num: int, den: int, f1: nat, f2: nat)
    requires
        f1 >= s.len(),
        f2 >= s.len(),
    ensures
        suppress_rounds(s, num, den, f1) == suppress_rounds(s, num, den, f2),
    decreases s.len(),
{
    if s.len() > 0 {
        let k = pick_index(s);
        lemma_pick_index_bounds(s);
        let rest = survivors(s[k], s.remove(k), num, den);
        lemma_survivors(s[k], s.remove(k), num, den);
        lemma_rounds_fuel(rest, num, den, (f1 - 1) as nat, (f2 - 1) as nat);
    }
}

proof fn lemma_rounds_within(s: Seq<BoxView>, num: int, den: int, fuel: nat)
    ensures
        forall|i: int|
            0 <= i < suppress_rounds(s, num, den, fuel).len() ==> s.contains(
                #[trigger] suppress_rounds(s, num, den, fuel)[i],
            ),
        forall|i: int, j: int|
            0 <= i < j < suppress_rounds(s, num, den, fuel).len() ==> !suppressed(
                #[trigger] suppress_rounds(s, num, den, fuel)[i],
                #[trigger] suppress_rounds(s, num, den, fuel)[j],
                num,
                den,
            ),
    decreases fuel,
{
    if fuel > 0 && s.len() > 0 {
        let k = pick_index(s);
        lemma_pick_index_bounds(s);
        let cur = s[k];
        let removed = s.remove(k);
        let rest = survivors(cur, removed, num, den);
        lemma_survivors(cur, removed, num, den);
        lemma_rounds_within(rest, num, den, (fuel - 1) as nat);
        let tail = suppress_rounds(rest, num, den, (fuel - 1) as nat);
        let out = suppress_rounds(s, num, den, fuel);
        assert(out == seq![cur] + tail);
        assert forall|i: int| 0 <= i < out.len() implies s.contains(#[trigger] out[i]) by {
            if i == 0 {
                assert(s[k] == out[i]);
            } else {
                assert(out[i] == tail[i - 1]);
                assert(rest.contains(tail[i - 1]));
                let a = choose|a: int| 0 <= a < rest.len() && rest[a] == tail[i - 1];
                assert(removed.contains(rest[a]));
                let b = choose|b: int| 0 <= b < removed.len() && removed[b] == rest[a];
                if b < k {
                    assert(s[b] == out[i]);
                } else {
                    assert(s[b + 1] == out[i]);
                }
            }
        }
        assert forall|i: int, j: int|
            0 <= i < j < out.len() implies !suppressed(#[trigger] out[i], #[trigger] out[j], num, den) by {
            assert(out[j] == tail[j - 1]);
            if i == 0 {
                assert(rest.contains(tail[j - 1]));
                let a = choose|a: int| 0 <= a < rest.len() && rest[a] == tail[j - 1];
                assert(!suppressed(cur, rest[a], num, den));
            } else {
                assert(out[i] == tail[i - 1]);
            }
        }
    }
}

/// No box kept by the suppressor has more than the ratio `num / den` of its
/// own area inside a box kept before it.
pub proof fn lemma_suppression_invariant(s: Seq<BoxView>, num: int, den: int)
    ensures
        forall|i: int, j: int|
            0 <= i < j < suppress_of(s, num, den).len() ==> overlap_area(
                #[trigger] suppress_of(s, num, den)[i],
                #[trigger] suppress_of(s, num, den)[j],
            ) * den <= num * suppress_of(s, num, den)[j].area(),
{
    lemma_rounds_within(s, num, den, s.len());
}

fn min_i32(a: i32, b: i32) -> (r: i32)
    ensures
        r == spec_min(a as int, b as int),
{
    if a <= b { a } else { b }
}

fn max_i32(a: i32, b: i32) -> (r: i32)
    ensures
        r == spec_max(a as int, b as int),
{
    if a >= b { a } else { b }
}

fn overlap_len_exec(a1: i32, a2: i32, b1: i32, b2: i32) -> (r: i64)
    ensures
        r == overlap_len(a1 as int, a2 as int, b1 as int, b2 as int),
        0 <= r < 0x1_0000_0000,
{
    let d: i64 = min_i32(a2, b2) as i64 - max_i32(a1, b1) as i64;
    if d > 0 { d } else { 0 }
}

/// Whether the kept box `kept` suppresses `b` at the ratio `num / den`.
pub fn is_suppressed(kept: &BoundingBox, b: &BoundingBox, num: u32, den: u32) -> (r: bool)
    ensures
        r == suppressed(kept@, b@, num as int, den as int),
{
    let w: i64 = overlap_len_exec(kept.x1, kept.x2, b.x1, b.x2);
    let h: i64 = overlap_len_exec(kept.y1, kept.y2, b.y1, b.y2);
    let bw: i64 = b.x2 as i64 - b.x1 as i64;
    let bh: i64 = b.y2 as i64 - b.y1 as i64;
    assert(0 <= w * h < 0x1_0000_0000_0000_0000) by (nonlinear_arith)
        requires 0 <= w < 0x1_0000_0000, 0 <= h < 0x1_0000_0000;
    assert(-0x1_0000_0000_0000_0000 < bw * bh < 0x1_0000_0000_0000_0000) by (nonlinear_arith)
        requires -0x1_0000_0000 < bw < 0x1_0000_0000, -0x1_0000_0000 < bh < 0x1_0000_0000;
    let inter: i128 = w as i128 * h as i128;
    let area: i128 = bw as i128 * bh as i128;
    assert(0 <= inter * den <= 0x1_0000_0000_0000_0000 * 0x1_0000_0000) by (nonlinear_arith)
        requires 0 <= inter < 0x1_0000_0000_0000_0000, 0 <= den < 0x1_0000_0000;
    assert(-0x1_0000_0000_0000_0000 * 0x1_0000_0000 <= num * area <= 0x1_0000_0000_0000_0000 * 0x1_0000_0000) by (nonlinear_arith)
        requires -0x1_0000_0000_0000_0000 < area < 0x1_0000_0000_0000_0000, 0 <= num < 0x1_0000_0000;
    inter * den as i128 > num as i128 * area
}

/// Index of the box with the smallest bottom edge, the last of equals.
fn pick_next(s: &Vec<BoundingBox>) -> (k: usize)
    requires
        s@.len() > 0,
    ensures
        k == pick_index(views(s@)),
        k < s@.len(),
{
    let ghost v = views(s@);
    let mut best: usize = 0;
    let mut i: usize = 1;
    while i < s.len()
        invariant
            1 <= i <= s@.len(),
            v == views(s@),
            best < i,
            best == pick_index(v.subrange(0, i as int)),
        decreases s@.len() - i,
    {
        assert(v.subrange(0, i + 1).drop_last() =~= v.subrange(0, i as int));
        if s[i].y2 <= s[best].y2 {
            best = i;
        }
        i = i + 1;
    }
    assert(v.subrange(0, v.len() as int) =~= v);
    best
}

/// The boxes of `s` that `kept` does not suppress, in order.
fn drop_suppressed(kept: &BoundingBox, s: Vec<BoundingBox>, num: u32, den: u32) -> (r: Vec<BoundingBox>)
    ensures
        views(r@) == survivors(kept@, views(s@), num as int, den as int),
{
    let ghost v = views(s@);
    let mut r: Vec<BoundingBox> = Vec::new();
    let mut i: usize = 0;
    while i < s.len()
        invariant
            i <= s@.len(),
            v == views(s@),
            views(r@) == survivors(kept@, v.subrange(0, i as int), num as int, den as int),
        decreases s@.len() - i,
    {
        assert(v.subrange(0, i + 1).drop_last() =~= v.subrange(0, i as int));
        if !is_suppressed(kept, &s[i], num, den) {
            let ghost before = r@;
            r.push(s[i].duplicate());
            assert(views(r@) =~= views(before).push(s@[i as int]@));
        }
        i = i + 1;
    }
    assert(v.subrange(0, v.len() as int) =~= v);
    r
}

/// Greedy suppression: repeatedly keeps the remaining box with the smallest
/// bottom edge (the last of equals in input order) and drops every remaining
/// box whose own area lies inside the kept one by more than the ratio
/// `overlap_num / overlap_den`. Returns the kept boxes in the order kept.
pub fn non_maximum_suppression(boxes: Vec<BoundingBox>, overlap_num: u32, overlap_den: u32) -> (r: Vec<BoundingBox>)
    requires
        overlap_den > 0,
    ensures
        views(r@) == suppress_of(views(boxes@), overlap_num as int, overlap_den as int),
{
    let ghost num = overlap_num as int;
    let ghost den = overlap_den as int;
    let ghost all = views(boxes@);
    let mut filtered_boxes: Vec<BoundingBox> = Vec::new();
    let mut remaining = boxes;
    while remaining.len() > 0
        invariant
            num == overlap_num as int,
            den == overlap_den as int,
            views(filtered_boxes@) + suppress_of(views(remaining@), num, den) == suppress_of(all, num, den),
        decreases remaining@.len(),
    {
        let ghost rv = views(remaining@);
        let k = pick_next(&remaining);
        let current = remaining.remove(k);
        assert(views(remaining@) =~= rv.remove(k as int));
        let next = drop_suppressed(&current, remaining, overlap_num, overlap_den);
        proof {
            lemma_survivors(rv[k as int], rv.remove(k as int), num, den);
            lemma_rounds_fuel(views(next@), num, den, (rv.len() - 1) as nat, views(next@).len());
            assert(suppress_of(rv, num, den) == seq![current@] + suppress_of(views(next@), num, den));
        }
        let ghost before = views(filtered_boxes@);
        filtered_boxes.push(current);
        assert(views(filtered_boxes@) =~= before.push(current@));
        assert(views(filtered_boxes@) + suppress_of(views(next@), num, den) =~= before + (seq![current@] + suppress_of(views(next@), num, den)));
        remaining = next;
    }
    assert(views(filtered_boxes@) + suppress_of(views(remaining@), num, den) =~= views(filtered_boxes@));
    filtered_boxes
}

} // verus!

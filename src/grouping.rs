//! The spatial grouper: horizontal zones and vertical rows.

use vstd::prelude::*;
use vstd::arithmetic::div_mod::{lemma_fundamental_div_mod, lemma_fundamental_div_mod_converse, lemma_mod_pos_bound};
use crate::boxes::{BoundingBox, BoxView, views};

verus! {

/// Floor division by a positive divisor.
pub fn floor_div(a: i64, b: i64) -> (q: i64)
    requires
        b > 0,
    ensures
        q as int == a as int / b as int,
{
    if a >= 0 {
        let q: u64 = (a as u64) / (b as u64);
        q as i64
    } else {
        let m: u64 = (-(a + 1)) as u64;
        let q0: u64 = m / (b as u64);
        proof {
            let mi = m as int;
            let bi = b as int;
            lemma_fundamental_div_mod(mi, bi);
            lemma_mod_pos_bound(mi, bi);
            let r = mi % bi;
            assert(a as int == (-(q0 as int) - 1) * bi + (bi - r - 1)) by (nonlinear_arith)
                requires
                    mi == bi * (q0 as int) + r,
                    mi == -(a as int) - 1,
            ;
            lemma_fundamental_div_mod_converse(a as int, bi, -(q0 as int) - 1, bi - r - 1);
        }
        -(q0 as i64) - 1
    }
}

/// Vertical center of a box, rounded down.
pub open spec fn center_y(b: BoxView) -> int {
    (b.y1 + b.y2) / 2
}

/// Start of the fixed-height bucket that holds the vertical position `c`.
pub open spec fn bucket_start(c: int, step: int) -> int {
    (c / step) * step
}

/// The rows formed from `s` in the order given, together with the start of
/// the bucket of the last (still open) row.
pub open spec fn row_state(s: Seq<BoxView>, step: int) -> (Seq<Seq<BoxView>>, int)
    decreases s.len(),
{
    if s.len() == 0 {
        (Seq::empty(), 0)
    } else {
        let prev = row_state(s.drop_last(), step);
        let rows = prev.0;
        let ys = prev.1;
        let b = s.last();
        let c = center_y(b);
        if rows.len() > 0 && ys <= c < ys + step {
            (rows.update(rows.len() - 1, rows.last().push(b)), ys)
        } else {
            (rows.push(seq![b]), bucket_start(c, step))
        }
    }
}

/// The rows that the vertical grouping forms from `s`.
pub open spec fn rows_of(s: Seq<BoxView>, step: int) -> Seq<Seq<BoxView>> {
    row_state(s, step).0
}

/// Concatenation of rows, first to last.
pub open spec fn flatten(rows: Seq<Seq<BoxView>>) -> Seq<BoxView>
    decreases rows.len(),
{
    if rows.len() == 0 {
        Seq::empty()
    } else {
        flatten(rows.drop_last()) + rows.last()
    }
}

/// The views of a sequence of rows of boxes.
pub open spec fn rows_view(r: Seq<Vec<BoundingBox>>) -> Seq<Seq<BoxView>> {
    r.map_values(|v: Vec<BoundingBox>| views(v@))
}

/// Grouping into rows neither drops nor reorders boxes, and no row is empty.
pub proof fn lemma_rows_partition(s: Seq<BoxView>, step: int)
    ensures
        flatten(rows_of(s, step)) == s,
        forall|i: int| 0 <= i < rows_of(s, step).len() ==> (#[trigger] rows_of(s, step)[i]).len() > 0,
    decreases s.len(),
{
    if s.len() > 0 {
        lemma_rows_partition(s.drop_last(), step);
        let prev = row_state(s.drop_last(), step);
        let rows = prev.0;
        let b = s.last();
        let c = center_y(b);
        if rows.len() > 0 && prev.1 <= c < prev.1 + step {
            let nr = rows.update(rows.len() - 1, rows.last().push(b));
            assert(nr.drop_last() =~= rows.drop_last());
            assert(flatten(rows) == flatten(rows.drop_last()) + rows.last());
            assert(flatten(nr) =~= flatten(rows).push(b));
        } else {
            let nr = rows.push(seq![b]);
            assert(nr.drop_last() =~= rows);
            assert(flatten(nr) =~= flatten(rows).push(b));
        }
        assert(s.drop_last().push(b) =~= s);
    }
}

/// Regrouping the concatenation of the rows gives the same rows again.
pub proof fn lemma_regroup_idempotent(s: Seq<BoxView>, step: int)
    ensures
        rows_of(flatten(rows_of(s, step)), step) == rows_of(s, step),
{
    lemma_rows_partition(s, step);
}

/// Groups boxes, in the order given, into rows: a box joins the current row
/// while its vertical center stays in the row's bucket of height
/// `y_range_step`; otherwise it opens a new row whose bucket is the multiple
/// of `y_range_step` at or below its center.
pub fn group_bounding_boxes_by_y_range(bounding_boxes: &[BoundingBox], y_range_step: i32) -> (r: Vec<Vec<BoundingBox>>)
    requires
        y_range_step > 0,
    ensures
        rows_view(r@) == rows_of(views(bounding_boxes@), y_range_step as int),
{
    let ghost s = views(bounding_boxes@);
    let ghost step = y_range_step as int;
    let mut grouped_rows: Vec<Vec<BoundingBox>> = Vec::new();
    let mut current_row: Vec<BoundingBox> = Vec::new();
    let mut y_start: i64 = 0;
    let mut i: usize = 0;
    while i < bounding_boxes.len()
        invariant
            i <= bounding_boxes@.len(),
            s == views(bounding_boxes@),
            step == y_range_step as int,
            step > 0,
            i == 0 ==> current_row@.len() == 0 && grouped_rows@.len() == 0,
            i > 0 ==> current_row@.len() > 0
                && rows_of(s.subrange(0, i as int), step) == rows_view(grouped_rows@).push(views(current_row@))
                && row_state(s.subrange(0, i as int), step).1 == y_start as int,
            -0x1_0000_0000 <= y_start <= 0x1_0000_0000,
        decreases bounding_boxes@.len() - i,
    {
        let b = &bounding_boxes[i];
        let center: i64 = floor_div(b.y1 as i64 + b.y2 as i64, 2);
        let ghost prefix = s.subrange(0, i as int);
        assert(s.subrange(0, i + 1).drop_last() =~= prefix);
        assert(s.subrange(0, i + 1).last() == b@);
        if current_row.len() > 0 && y_start <= center && center < y_start + y_range_step as i64 {
            let ghost before = current_row@;
            current_row.push(b.duplicate());
            proof {
                let rows = rows_view(grouped_rows@);
                let old_rows = rows.push(views(before));
                assert(views(current_row@) =~= views(before).push(b@));
                assert(rows_view(grouped_rows@).push(views(current_row@)) =~= old_rows.update(
                    old_rows.len() - 1, old_rows.last().push(b@)));
            }
        } else {
            if current_row.len() > 0 {
                grouped_rows.push(current_row);
            }
            current_row = vec![b.duplicate()];
            let q: i64 = floor_div(center, y_range_step as i64);
            proof {
                assert(-0x1_0000_0000 <= center <= 0x1_0000_0000);
                assert(q * y_range_step <= center) by (nonlinear_arith)
                    requires q == center as int / y_range_step as int, y_range_step > 0;
                assert(q * y_range_step > center - y_range_step) by (nonlinear_arith)
                    requires q == center as int / y_range_step as int, y_range_step > 0;
            }
            y_start = q * y_range_step as i64;
            proof {
                assert(views(current_row@) =~= seq![b@]);
                assert(rows_view(grouped_rows@) =~= rows_of(prefix, step));
                assert(rows_view(grouped_rows@).push(views(current_row@)) =~= rows_of(prefix, step).push(seq![b@]));
            }
        }
        i = i + 1;
    }
    if current_row.len() > 0 {
        grouped_rows.push(current_row);
    }
    assert(s.subrange(0, s.len() as int) =~= s);
    proof {
        if bounding_boxes@.len() == 0 {
            assert(rows_view(grouped_rows@) =~= rows_of(s, step));
        }
    }
    grouped_rows
}

/// Number of horizontal zones the board width is divided into.
pub const ZONE_COUNT: usize = 9;

/// Twice the horizontal center of a box.
pub open spec fn center_x2(b: BoxView) -> int {
    b.x1 + b.x2
}

/// Zone `i` of an image of width `w` holds the doubled horizontal center `c2`
/// when `i / 9 <= c2 / (2 * w) < (i + 1) / 9`; the last zone also holds the
/// right edge itself.
pub open spec fn in_zone(i: int, c2: int, w: int) -> bool {
    (2 * (w * i) <= 9 * c2 && 9 * c2 < 2 * (w * (i + 1))) || (i == 8 && 9 * c2 == 18 * w)
}

/// The boxes of `s` whose center lies in zone `i`, in their order in `s`.
pub open spec fn zone_members(s: Seq<BoxView>, w: int, i: int) -> Seq<BoxView>
    decreases s.len(),
{
    if s.len() == 0 {
        Seq::empty()
    } else {
        let rest = zone_members(s.drop_last(), w, i);
        if in_zone(i, center_x2(s.last()), w) {
            rest.push(s.last())
        } else {
            rest
        }
    }
}

/// On an image of positive width, every horizontal center from the left edge
/// to the right edge lies in exactly one of the nine zones.
pub proof fn lemma_zone_partition(c2: int, w: int)
    requires
        w > 0,
        0 <= c2 <= 2 * w,
    ensures
        exists|i: int| 0 <= i < 9 && #[trigger] in_zone(i, c2, w),
        forall|i: int, j: int|
            0 <= i < 9 && 0 <= j < 9 && #[trigger] in_zone(i, c2, w) && #[trigger] in_zone(j, c2, w)
                ==> i == j,
{
    if c2 == 2 * w {
        assert(in_zone(8, c2, w));
    } else {
        let i = (9 * c2) / (2 * w);
        lemma_fundamental_div_mod(9 * c2, 2 * w);
        lemma_mod_pos_bound(9 * c2, 2 * w);
        assert(2 * (w * i) <= 9 * c2 && 9 * c2 < 2 * (w * (i + 1))) by (nonlinear_arith)
            requires
                9 * c2 == 2 * w * i + (9 * c2) % (2 * w),
                0 <= (9 * c2) % (2 * w) < 2 * w,
        ;
        assert(0 <= i < 9) by (nonlinear_arith)
            requires
                2 * (w * i) <= 9 * c2,
                9 * c2 < 2 * (w * (i + 1)),
                0 <= c2 < 2 * w,
                w > 0,
        ;
        assert(in_zone(i, c2, w));
    }
    assert forall|i: int, j: int|
        0 <= i < 9 && 0 <= j < 9 && #[trigger] in_zone(i, c2, w) && #[trigger] in_zone(j, c2, w)
            implies i == j by {
        if i < j {
            assert(w * (i + 1) <= w * j) by (nonlinear_arith)
                requires i + 1 <= j, w > 0;
            assert(w * j <= 8 * w) by (nonlinear_arith)
                requires j <= 8, w > 0;
        } else if j < i {
            assert(w * (j + 1) <= w * i) by (nonlinear_arith)
                requires j + 1 <= i, w > 0;
            assert(w * i <= 8 * w) by (nonlinear_arith)
                requires i <= 8, w > 0;
        }
    }
}

/// Whether a box's horizontal center lies in zone `zone`.
fn box_in_zone(b: &BoundingBox, zone: usize, image_width: i32) -> (r: bool)
    requires
        zone < ZONE_COUNT,
    ensures
        r == in_zone(zone as int, center_x2(b@), image_width as int),
{
    let c2: i64 = b.x1 as i64 + b.x2 as i64;
    let w: i64 = image_width as i64;
    let z: i64 = zone as i64;
    assert(-0x10_0000_0000 <= w * z <= 0x10_0000_0000) by (nonlinear_arith)
        requires -0x8000_0000 <= w < 0x8000_0000, 0 <= z < 9;
    assert(-0x10_0000_0000 <= w * (z + 1) <= 0x10_0000_0000) by (nonlinear_arith)
        requires -0x8000_0000 <= w < 0x8000_0000, 0 <= z < 9;
    (2 * (w * z) <= 9 * c2 && 9 * c2 < 2 * (w * (z + 1))) || (z == 8 && 9 * c2 == 18 * w)
}

/// Splits the boxes into the nine zones of width `image_width / 9`, by
/// horizontal center, keeping their order within each zone.
pub fn group_bounding_boxes_by_x_percentage(bounding_boxes: &[BoundingBox], image_width: i32) -> (r: Vec<Vec<BoundingBox>>)
    ensures
        r@.len() == ZONE_COUNT,
        forall|i: int|
            0 <= i < ZONE_COUNT ==> views((#[trigger] r@[i])@) == zone_members(
                views(bounding_boxes@),
                image_width as int,
                i,
            ),
{
    let ghost s = views(bounding_boxes@);
    let mut zones: Vec<Vec<BoundingBox>> = Vec::new();
    let mut zone: usize = 0;
    while zone < ZONE_COUNT
        invariant
            zone <= ZONE_COUNT,
            s == views(bounding_boxes@),
            zones@.len() == zone,
            forall|i: int|
                0 <= i < zone ==> views((#[trigger] zones@[i])@) == zone_members(s, image_width as int, i),
        decreases ZONE_COUNT - zone,
    {
        let mut members: Vec<BoundingBox> = Vec::new();
        let mut k: usize = 0;
        while k < bounding_boxes.len()
            invariant
                k <= bounding_boxes@.len(),
                zone < ZONE_COUNT,
                s == views(bounding_boxes@),
                views(members@) == zone_members(s.subrange(0, k as int), image_width as int, zone as int),
            decreases bounding_boxes@.len() - k,
        {
            let b = &bounding_boxes[k];
            assert(s.subrange(0, k + 1).drop_last() =~= s.subrange(0, k as int));
            if box_in_zone(b, zone, image_width) {
                let ghost before = members@;
                members.push(b.duplicate());
                assert(views(members@) =~= views(before).push(b@));
            }
            k = k + 1;
        }
        assert(s.subrange(0, s.len() as int) =~= s);
        zones.push(members);
        zone = zone + 1;
    }
    zones
}

} // verus!

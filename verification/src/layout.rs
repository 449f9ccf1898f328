use vstd::prelude::*;
use crate::grid_cell::GridCell;
use crate::line_segment::larger;
use crate::line_segment::smaller;
use crate::stitch::HalfStitch;

verus! {

/// The least x-coordinate at which one of the stitches starts.
pub open spec fn least_x(stitches: Seq<HalfStitch>) -> int
    decreases stitches.len(),
{
    if stitches.len() <= 1 {
        stitches[0].start.x as int
    } else {
        smaller(least_x(stitches.drop_last()), stitches.last().start.x as int)
    }
}

/// The least y-coordinate at which one of the stitches starts.
pub open spec fn least_y(stitches: Seq<HalfStitch>) -> int
    decreases stitches.len(),
{
    if stitches.len() <= 1 {
        stitches[0].start.y as int
    } else {
        smaller(least_y(stitches.drop_last()), stitches.last().start.y as int)
    }
}

/// The greatest x-coordinate at which one of the stitches starts or ends.
pub open spec fn greatest_x(stitches: Seq<HalfStitch>) -> int
    decreases stitches.len(),
{
    if stitches.len() <= 1 {
        larger(stitches[0].start.x as int, stitches[0].end_x())
    } else {
        larger(
            greatest_x(stitches.drop_last()),
            larger(stitches.last().start.x as int, stitches.last().end_x()),
        )
    }
}

/// The greatest y-coordinate at which one of the stitches starts or ends.
pub open spec fn greatest_y(stitches: Seq<HalfStitch>) -> int
    decreases stitches.len(),
{
    if stitches.len() <= 1 {
        larger(stitches[0].start.y as int, stitches[0].end_y())
    } else {
        larger(
            greatest_y(stitches.drop_last()),
            larger(stitches.last().start.y as int, stitches.last().end_y()),
        )
    }
}

/// The stitch moved so that a start at `(left, bottom)` comes to the origin.
pub open spec fn moved(stitch: HalfStitch, left: int, bottom: int) -> HalfStitch {
    HalfStitch {
        start: GridCell {
            x: (stitch.start.x - left) as isize,
            y: (stitch.start.y - bottom) as isize,
        },
        stitch_corner: stitch.stitch_corner,
        order: stitch.order,
    }
}

/// No start is further from the leftmost start, or from the lowest one,
/// than a coordinate can hold.
pub open spec fn spans_fit(stitches: Seq<HalfStitch>) -> bool {
    forall|i: int|
        0 <= i < stitches.len() ==> (#[trigger] stitches[i]).start.x - least_x(stitches)
            <= isize::MAX && stitches[i].start.y - least_y(stitches) <= isize::MAX
}

/// Every stitch ends at a lattice point that `GridCell` can hold.
pub open spec fn ends_are_representable(stitches: Seq<HalfStitch>) -> bool {
    forall|i: int| 0 <= i < stitches.len() ==> (#[trigger] stitches[i]).end_is_representable()
}

/// The leftmost and the lowest start are no further right or up than any
/// start, and each is the coordinate of some start.
pub proof fn lemma_least_start(stitches: Seq<HalfStitch>)
    requires
        stitches.len() > 0,
    ensures
        forall|i: int|
            0 <= i < stitches.len() ==> least_x(stitches) <= (#[trigger] stitches[i]).start.x
                && least_y(stitches) <= stitches[i].start.y,
        exists|i: int| 0 <= i < stitches.len() && stitches[i].start.x == least_x(stitches),
        exists|i: int| 0 <= i < stitches.len() && stitches[i].start.y == least_y(stitches),
    decreases stitches.len(),
{
    if stitches.len() == 1 {
        assert(stitches[0].start.x == least_x(stitches));
        assert(stitches[0].start.y == least_y(stitches));
    } else {
        let before = stitches.drop_last();
        let n = stitches.len() as int;
        lemma_least_start(before);
        assert forall|i: int| 0 <= i < stitches.len() implies least_x(stitches) <= (
        #[trigger] stitches[i]).start.x && least_y(stitches) <= stitches[i].start.y by {
            if i < n - 1 {
                assert(before[i] == stitches[i]);
            }
        }
        let at_x = choose|i: int| 0 <= i < before.len() && before[i].start.x == least_x(before);
        let at_y = choose|i: int| 0 <= i < before.len() && before[i].start.y == least_y(before);
        assert(stitches[at_x] == before[at_x] && stitches[at_y] == before[at_y]);
        if least_x(stitches) == least_x(before) {
            assert(stitches[at_x].start.x == least_x(stitches));
        } else {
            assert(stitches[n - 1].start.x == least_x(stitches));
        }
        if least_y(stitches) == least_y(before) {
            assert(stitches[at_y].start.y == least_y(stitches));
        } else {
            assert(stitches[n - 1].start.y == least_y(stitches));
        }
    }
}

/// Move the stitches so that the bottommost and leftmost ones are at the origin.
pub fn re_centre_stitches(stitches: &[HalfStitch]) -> (centred: Vec<HalfStitch>)
    requires
        stitches@.len() > 0,
        spans_fit(stitches@),
    ensures
        centred@.len() == stitches@.len(),
        forall|i: int|
            0 <= i < stitches@.len() ==> #[trigger] centred@[i] == moved(
                stitches@[i],
                least_x(stitches@),
                least_y(stitches@),
            ),
{
    let mut leftmost_x = stitches[0].start.x;
    let mut bottom_y = stitches[0].start.y;
    let mut i: usize = 1;
    assert(stitches@.take(1).len() == 1);
    while i < stitches.len()
        invariant
            1 <= i <= stitches@.len(),
            leftmost_x == least_x(stitches@.take(i as int)),
            bottom_y == least_y(stitches@.take(i as int)),
        decreases stitches@.len() - i,
    {
        assert(stitches@.take(i + 1).drop_last() =~= stitches@.take(i as int));
        if stitches[i].start.x < leftmost_x {
            leftmost_x = stitches[i].start.x;
        }
        if stitches[i].start.y < bottom_y {
            bottom_y = stitches[i].start.y;
        }
        i += 1;
    }
    assert(stitches@.take(i as int) =~= stitches@);
    proof {
        lemma_least_start(stitches@);
    }
    let mut centred: Vec<HalfStitch> = Vec::new();
    let mut j: usize = 0;
    while j < stitches.len()
        invariant
            0 <= j <= stitches@.len(),
            leftmost_x == least_x(stitches@),
            bottom_y == least_y(stitches@),
            spans_fit(stitches@),
            forall|k: int|
                0 <= k < stitches@.len() ==> least_x(stitches@) <= (#[trigger] stitches@[k]).start.x
                    && least_y(stitches@) <= stitches@[k].start.y,
            centred@.len() == j,
            forall|k: int|
                0 <= k < j ==> #[trigger] centred@[k] == moved(
                    stitches@[k],
                    least_x(stitches@),
                    least_y(stitches@),
                ),
        decreases stitches@.len() - j,
    {
        let stitch = &stitches[j];
        assert(stitches@[j as int].start.x - least_x(stitches@) <= isize::MAX);
        centred.push(
            HalfStitch {
                start: GridCell { x: stitch.start.x - leftmost_x, y: stitch.start.y - bottom_y },
                stitch_corner: stitch.stitch_corner,
                order: stitch.order,
            },
        );
        j += 1;
    }
    centred
}

/// The greatest coordinates, across and up, at which one of the stitches
/// starts or ends.
pub fn grid_extent(stitches: &[HalfStitch]) -> (extent: (isize, isize))
    requires
        stitches@.len() > 0,
        ends_are_representable(stitches@),
    ensures
        extent.0 == greatest_x(stitches@),
        extent.1 == greatest_y(stitches@),
{
    let mut max_x = stitches[0].start.x;
    let mut max_y = stitches[0].start.y;
    let mut i: usize = 0;
    while i < stitches.len()
        invariant
            0 <= i <= stitches@.len(),
            ends_are_representable(stitches@),
            i == 0 ==> max_x == stitches@[0].start.x && max_y == stitches@[0].start.y,
            i > 0 ==> max_x == greatest_x(stitches@.take(i as int)) && max_y == greatest_y(
                stitches@.take(i as int),
            ),
        decreases stitches@.len() - i,
    {
        assert(stitches@.take(i + 1).drop_last() =~= stitches@.take(i as int));
        assert(stitches@[i as int].end_is_representable());
        let end = stitches[i].get_end_location();
        if stitches[i].start.x > max_x {
            max_x = stitches[i].start.x;
        }
        if end.x > max_x {
            max_x = end.x;
        }
        if stitches[i].start.y > max_y {
            max_y = stitches[i].start.y;
        }
        if end.y > max_y {
            max_y = end.y;
        }
        i += 1;
    }
    assert(stitches@.take(i as int) =~= stitches@);
    (max_x, max_y)
}

/// The stitches that start from the same corner as the first one, and the
/// others, each in the order in which they came.
pub fn split_by_first_corner(stitches: &[HalfStitch]) -> (parts: (Vec<HalfStitch>, Vec<HalfStitch>))
    requires
        stitches@.len() > 0,
    ensures
        parts.0@ == stitches@.filter(
            |s: HalfStitch| s.stitch_corner == stitches@[0].stitch_corner,
        ),
        parts.1@ == stitches@.filter(
            |s: HalfStitch| s.stitch_corner != stitches@[0].stitch_corner,
        ),
{
    let corner = stitches[0].stitch_corner;
    let ghost same = |s: HalfStitch| s.stitch_corner == stitches@[0].stitch_corner;
    let ghost other = |s: HalfStitch| s.stitch_corner != stitches@[0].stitch_corner;
    let mut bottom_stitches: Vec<HalfStitch> = Vec::new();
    let mut top_stitches: Vec<HalfStitch> = Vec::new();
    let mut i: usize = 0;
    assert(stitches@.take(0).filter(same) =~= Seq::<HalfStitch>::empty());
    assert(stitches@.take(0).filter(other) =~= Seq::<HalfStitch>::empty());
    while i < stitches.len()
        invariant
            0 <= i <= stitches@.len(),
            corner == stitches@[0].stitch_corner,
            same == |s: HalfStitch| s.stitch_corner == stitches@[0].stitch_corner,
            other == |s: HalfStitch| s.stitch_corner != stitches@[0].stitch_corner,
            bottom_stitches@ == stitches@.take(i as int).filter(same),
            top_stitches@ == stitches@.take(i as int).filter(other),
        decreases stitches@.len() - i,
    {
        proof {
            assert(stitches@.take(i + 1) =~= stitches@.take(i as int).push(stitches@[i as int]));
            Seq::lemma_filter_push(stitches@.take(i as int), stitches@[i as int], same);
            Seq::lemma_filter_push(stitches@.take(i as int), stitches@[i as int], other);
        }
        if stitches[i].stitch_corner == corner {
            bottom_stitches.push(stitches[i]);
        } else {
            top_stitches.push(stitches[i]);
        }
        i += 1;
    }
    assert(stitches@.take(i as int) =~= stitches@);
    (bottom_stitches, top_stitches)
}

/// The lines along which the thread travels on the back of the fabric:
/// for each stitch but the last, from its end to the start of the next.
pub fn inter_stitch_lines(stitches: &[HalfStitch]) -> (lines: Vec<(GridCell, GridCell)>)
    requires
        ends_are_representable(stitches@),
    ensures
        lines@.len() == if stitches@.len() == 0 {
            0
        } else {
            stitches@.len() - 1
        },
        forall|i: int|
            0 <= i < lines@.len() ==> stitches@[i].ends_at((#[trigger] lines@[i]).0) && lines@[i].1
                == stitches@[i + 1].start,
{
    let mut lines: Vec<(GridCell, GridCell)> = Vec::new();
    let mut i: usize = 1;
    while i < stitches.len()
        invariant
            1 <= i,
            ends_are_representable(stitches@),
            lines@.len() == smaller(i as int, larger(stitches@.len() as int, 1)) - 1,
            forall|k: int|
                0 <= k < lines@.len() ==> stitches@[k].ends_at((#[trigger] lines@[k]).0)
                    && lines@[k].1 == stitches@[k + 1].start,
        decreases stitches@.len() - i,
    {
        assert(stitches@[i - 1].end_is_representable());
        let first_point = stitches[i - 1].get_end_location();
        let second_point = stitches[i].start;
        lines.push((first_point, second_point));
        i += 1;
    }
    lines
}

} // verus!

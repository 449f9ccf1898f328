use vstd::prelude::*;
use vstd::std_specs::convert::FromSpecImpl;
use crate::grid_cell::GridCell;
use crate::grid_cell::lemma_squared_distance;

verus! {

/// A struct for working with lines that are orthogonal to a grid i.e. straight between grid points.
#[derive(Copy, Clone, Debug, Hash, Eq, PartialEq, Structural)]
pub struct LineSegment {
    pub start: GridCell,
    pub end: GridCell,
    /// A number by which callers order what they draw; no rule here reads it.
    pub order: usize,
}

#[derive(Debug, PartialEq, Eq, Structural)]
enum Axis {
    Horizontal,
    Vertical,
}

/// `root` is the square root of `n`, rounded down.
pub open spec fn is_floor_sqrt(n: int, root: int) -> bool {
    0 <= root && root * root <= n < (root + 1) * (root + 1)
}

/// The square root of `n`, rounded down.
pub open spec fn floor_sqrt(n: nat) -> nat {
    choose|root: nat| is_floor_sqrt(n as int, root as int)
}

/// The smaller of two numbers.
pub open spec fn smaller(a: int, b: int) -> int {
    if a <= b {
        a
    } else {
        b
    }
}

/// The larger of two numbers.
pub open spec fn larger(a: int, b: int) -> int {
    if a >= b {
        a
    } else {
        b
    }
}

impl LineSegment {
    /// The segment runs along the x-axis and is longer than a point.
    pub open spec fn is_horizontal(self) -> bool {
        self.start.y == self.end.y && self.start.x != self.end.x
    }

    /// The segment runs along the y-axis and is longer than a point.
    pub open spec fn is_vertical(self) -> bool {
        self.start.x == self.end.x && self.start.y != self.end.y
    }

    /// The segment is horizontal or vertical: neither slanted nor a single point.
    pub open spec fn is_orthogonal(self) -> bool {
        self.is_horizontal() || self.is_vertical()
    }

    /// Whether the two segments lie on one line and share more than a point
    /// of it: both horizontal with the same `y`, or both vertical with the
    /// same `x`, and the stretches they cover along that line meet in a
    /// stretch of positive length.
    pub open spec fn overlaps_with(self, other: LineSegment) -> bool {
        ||| {
            &&& self.is_horizontal()
            &&& other.is_horizontal()
            &&& self.start.y == other.start.y
            &&& larger(
                smaller(self.start.x as int, self.end.x as int),
                smaller(other.start.x as int, other.end.x as int),
            ) < smaller(
                larger(self.start.x as int, self.end.x as int),
                larger(other.start.x as int, other.end.x as int),
            )
        }
        ||| {
            &&& self.is_vertical()
            &&& other.is_vertical()
            &&& self.start.x == other.start.x
            &&& larger(
                smaller(self.start.y as int, self.end.y as int),
                smaller(other.start.y as int, other.end.y as int),
            ) < smaller(
                larger(self.start.y as int, self.end.y as int),
                larger(other.start.y as int, other.end.y as int),
            )
        }
    }

    /// Whether the lattice point `(x, y)` lies on the segment, its ends included.
    pub open spec fn covers(self, x: int, y: int) -> bool {
        &&& smaller(self.start.x as int, self.end.x as int) <= x <= larger(
            self.start.x as int,
            self.end.x as int,
        )
        &&& smaller(self.start.y as int, self.end.y as int) <= y <= larger(
            self.start.y as int,
            self.end.y as int,
        )
        &&& (x - self.start.x) * (self.end.y - self.start.y) == (y - self.start.y) * (self.end.x
            - self.start.x)
    }

    /// No two different lattice points lie on both segments: the segments
    /// are apart, or cross or touch in a single point, such as a common end.
    pub open spec fn shares_at_most_one_point(self, other: LineSegment) -> bool {
        forall|x1: int, y1: int, x2: int, y2: int|
            #![trigger self.covers(x1, y1), other.covers(x2, y2)]
            self.covers(x1, y1) && other.covers(x1, y1) && self.covers(x2, y2) && other.covers(
                x2,
                y2,
            ) ==> x1 == x2 && y1 == y2
    }

    /// The square of the distance between the two ends.
    pub open spec fn squared_length(self) -> nat {
        self.start.squared_distance(self.end) as nat
    }

    /// The distance between the two ends, rounded down to a whole number and
    /// capped at the largest `usize`.
    pub open spec fn length(self) -> nat {
        if floor_sqrt(self.squared_length()) <= usize::MAX {
            floor_sqrt(self.squared_length())
        } else {
            usize::MAX as nat
        }
    }

    pub fn new(start: GridCell, end: GridCell, order: usize) -> (segment: Self)
        ensures
            segment == (LineSegment { start, end, order }),
    {
        Self { start, end, order }
    }

    /// The distance between the two ends, rounded down to a whole number and
    /// capped at the largest `usize`.
    pub fn get_length(&self) -> (length: usize)
        ensures
            length == self.length(),
    {
        let across = distance_along(self.start.x, self.end.x);
        let up = distance_along(self.start.y, self.end.y);
        proof {
            lemma_squared_distance(self.start, self.end);
            lemma_square_of_magnitude(self.end.x - self.start.x, across as int);
            lemma_square_of_magnitude(self.end.y - self.start.y, up as int);
        }
        let squared = match (across * across).checked_add(up * up) {
            Some(squared) => squared,
            None => {
                proof {
                    let root = lemma_floor_sqrt_exists(self.squared_length());
                    lemma_floor_sqrt_of_large(self.squared_length(), root);
                }
                return usize::MAX;
            },
        };
        let root = floor_sqrt_u128(squared);
        proof {
            lemma_floor_sqrt_is(squared as nat, root as nat);
        }
        if root > usize::MAX as u64 {
            usize::MAX
        } else {
            root as usize
        }
    }

    /// Determines if two LineSegments overlap.
    pub fn overlaps(&self, other: &LineSegment) -> (overlap: bool)
        ensures
            overlap == self.overlaps_with(*other),
    {
        // Determine if both segments are horizontal or vertical
        let self_orientation = self.orientation();
        let other_orientation = other.orientation();

        match (self_orientation, other_orientation) {
            (Some(self_dir), Some(other_dir)) => {
                // We don't consider lines of different orientations to be overlapping.
                if self_dir != other_dir {
                    return false;
                }
                if self_dir == Axis::Horizontal {
                    // Check if they are on the same y-coordinate
                    if self.start.y != other.start.y {
                        return false;
                    }
                    // Check if their x ranges overlap

                    let (self_min_x, self_max_x) = (
                        lesser(self.start.x, self.end.x),
                        greater(self.start.x, self.end.x),
                    );
                    let (other_min_x, other_max_x) = (
                        lesser(other.start.x, other.end.x),
                        greater(other.start.x, other.end.x),
                    );
                    greater(self_min_x, other_min_x) < lesser(self_max_x, other_max_x)
                } else {
                    // Check if they are on the same x-coordinate
                    if self.start.x != other.start.x {
                        return false;
                    }
                    // Check if their y ranges overlap

                    let (self_min_y, self_max_y) = (
                        lesser(self.start.y, self.end.y),
                        greater(self.start.y, self.end.y),
                    );
                    let (other_min_y, other_max_y) = (
                        lesser(other.start.y, other.end.y),
                        greater(other.start.y, other.end.y),
                    );
                    greater(self_min_y, other_min_y) < lesser(self_max_y, other_max_y)
                }
            },
            _ => false,  // One or both segments are not strictly horizontal or vertical
        }
    }

    /// Determines the orientation of a line segment. A single point counts
    /// as horizontal here; it covers no stretch and overlaps nothing.
    fn orientation(&self) -> (axis: Option<Axis>)
        ensures
            axis == Some(Axis::Horizontal) <==> self.start.y == self.end.y,
            axis == Some(Axis::Vertical) <==> self.start.y != self.end.y && self.start.x
                == self.end.x,
    {
        if self.start.y == self.end.y {
            Some(Axis::Horizontal)
        } else if self.start.x == self.end.x {
            Some(Axis::Vertical)
        } else {
            None
        }
    }
}

impl From<(GridCell, GridCell)> for LineSegment {
    fn from(ends: (GridCell, GridCell)) -> (segment: Self) {
        LineSegment { start: ends.0, end: ends.1, order: 0 }
    }
}

impl FromSpecImpl<(GridCell, GridCell)> for LineSegment {
    open spec fn obeys_from_spec() -> bool {
        true
    }

    open spec fn from_spec(ends: (GridCell, GridCell)) -> Self {
        LineSegment { start: ends.0, end: ends.1, order: 0 }
    }
}

impl From<LineSegment> for (GridCell, GridCell) {
    fn from(segment: LineSegment) -> (ends: Self) {
        (segment.start, segment.end)
    }
}

impl FromSpecImpl<LineSegment> for (GridCell, GridCell) {
    open spec fn obeys_from_spec() -> bool {
        true
    }

    open spec fn from_spec(segment: LineSegment) -> Self {
        (segment.start, segment.end)
    }
}

/// Overlap does not depend on the order of the two segments.
pub proof fn lemma_overlap_symmetric(a: LineSegment, b: LineSegment)
    ensures
        a.overlaps_with(b) == b.overlaps_with(a),
{
}

/// Segments that overlap have a stretch of their line in common: two
/// neighbouring lattice points lie on both of them.
pub proof fn lemma_overlap_shares_a_stretch(a: LineSegment, b: LineSegment) -> (point: (int, int))
    requires
        a.overlaps_with(b),
    ensures
        a.covers(point.0, point.1),
        b.covers(point.0, point.1),
        a.is_horizontal() ==> a.covers(point.0 + 1, point.1) && b.covers(point.0 + 1, point.1),
        a.is_vertical() ==> a.covers(point.0, point.1 + 1) && b.covers(point.0, point.1 + 1),
{
    if a.is_horizontal() {
        let x = larger(
            smaller(a.start.x as int, a.end.x as int),
            smaller(b.start.x as int, b.end.x as int),
        );
        let y = a.start.y as int;
        lemma_on_the_line(x - a.start.x, a.end.x - a.start.x);
        lemma_on_the_line(x + 1 - a.start.x, a.end.x - a.start.x);
        lemma_on_the_line(x - b.start.x, b.end.x - b.start.x);
        lemma_on_the_line(x + 1 - b.start.x, b.end.x - b.start.x);
        (x, y)
    } else {
        let x = a.start.x as int;
        let y = larger(
            smaller(a.start.y as int, a.end.y as int),
            smaller(b.start.y as int, b.end.y as int),
        );
        lemma_on_the_line(y - a.start.y, a.end.y - a.start.y);
        lemma_on_the_line(y + 1 - a.start.y, a.end.y - a.start.y);
        lemma_on_the_line(y - b.start.y, b.end.y - b.start.y);
        lemma_on_the_line(y + 1 - b.start.y, b.end.y - b.start.y);
        (x, y)
    }
}

/// Products with the factor 0 are equal.
proof fn lemma_on_the_line(along: int, length: int)
    ensures
        along * 0 == 0 * length,
        0 * length == along * 0,
{
    assert(along * 0 == 0 * length) by (nonlinear_arith);
}

/// Segments that have at most one point in common, such as two that share
/// an end and nothing else, do not overlap.
pub proof fn lemma_touching_segments_do_not_overlap(a: LineSegment, b: LineSegment)
    requires
        a.shares_at_most_one_point(b),
    ensures
        !a.overlaps_with(b),
{
    if a.overlaps_with(b) {
        let point = lemma_overlap_shares_a_stretch(a, b);
        if a.is_horizontal() {
            assert(a.covers(point.0, point.1) && b.covers(point.0 + 1, point.1));
        } else {
            assert(a.covers(point.0, point.1) && b.covers(point.0, point.1 + 1));
        }
    }
}

/// A horizontal or vertical segment overlaps itself. A slanted segment and
/// a single point overlap nothing, themselves included.
pub proof fn lemma_overlap_reflexive(a: LineSegment)
    ensures
        a.overlaps_with(a) == a.is_orthogonal(),
{
}

/// A slanted segment and a single point overlap nothing: whatever overlaps
/// is horizontal or vertical.
pub proof fn lemma_only_orthogonal_segments_overlap(a: LineSegment, b: LineSegment)
    requires
        a.overlaps_with(b),
    ensures
        a.is_orthogonal(),
        b.is_orthogonal(),
{
}

/// A number has one square root rounded down, and no more.
pub proof fn lemma_floor_sqrt_unique(n: int, first: int, second: int)
    requires
        is_floor_sqrt(n, first),
        is_floor_sqrt(n, second),
    ensures
        first == second,
{
    assert(first == second) by (nonlinear_arith)
        requires
            0 <= first,
            first * first <= n < (first + 1) * (first + 1),
            0 <= second,
            second * second <= n < (second + 1) * (second + 1),
    {
        if first < second {
            assert((first + 1) * (first + 1) <= second * second);
        }
        if second < first {
            assert((second + 1) * (second + 1) <= first * first);
        }
    }
}

/// Every natural number has a square root rounded down.
pub proof fn lemma_floor_sqrt_exists(n: nat) -> (root: nat)
    ensures
        is_floor_sqrt(n as int, root as int),
        floor_sqrt(n) == root,
    decreases n,
{
    let root = if n == 0 {
        0nat
    } else {
        let before = lemma_floor_sqrt_exists((n - 1) as nat);
        if n == (before + 1) * (before + 1) {
            assert((before + 1) * (before + 1) < (before + 2) * (before + 2))
                by (nonlinear_arith);
            before + 1
        } else {
            before
        }
    };
    lemma_floor_sqrt_is(n, root);
    root
}

/// A number that is a square root rounded down is the one that `floor_sqrt` names.
pub proof fn lemma_floor_sqrt_is(n: nat, root: nat)
    requires
        is_floor_sqrt(n as int, root as int),
    ensures
        floor_sqrt(n) == root,
{
    let chosen = choose|chosen: nat| is_floor_sqrt(n as int, chosen as int);
    lemma_floor_sqrt_unique(n as int, root as int, chosen as int);
}

/// The length of a horizontal or vertical segment whose length fits
/// `usize` is the distance between its ends along its line.
pub proof fn lemma_orthogonal_length(a: LineSegment)
    requires
        a.is_orthogonal(),
        larger(a.end.x - a.start.x, a.start.x - a.end.x) + larger(
            a.end.y - a.start.y,
            a.start.y - a.end.y,
        ) <= usize::MAX,
    ensures
        a.length() == larger(a.end.x - a.start.x, a.start.x - a.end.x) + larger(
            a.end.y - a.start.y,
            a.start.y - a.end.y,
        ),
{
    let dx = a.end.x - a.start.x;
    let dy = a.end.y - a.start.y;
    let along = larger(dx, -dx) + larger(dy, -dy);
    lemma_squared_distance(a.start, a.end);
    assert(is_floor_sqrt(dx * dx + dy * dy, along)) by (nonlinear_arith)
        requires
            dx == 0 || dy == 0,
            along == larger(dx, -dx) + larger(dy, -dy),
    ;
    lemma_floor_sqrt_is(a.squared_length(), along as nat);
}

/// A number from 2 to the power 128 on has a square root of at least 2 to
/// the power 64.
proof fn lemma_floor_sqrt_of_large(n: nat, root: nat)
    requires
        is_floor_sqrt(n as int, root as int),
        n >= 0x1_0000_0000_0000_0000_0000_0000_0000_0000,
    ensures
        root >= 0x1_0000_0000_0000_0000,
{
    assert(root >= 0x1_0000_0000_0000_0000) by (nonlinear_arith)
        requires
            n < (root + 1) * (root + 1),
            n >= 0x1_0000_0000_0000_0000_0000_0000_0000_0000,
    {
        if root < 0x1_0000_0000_0000_0000 {
            assert((root + 1) * (root + 1) <= 0x1_0000_0000_0000_0000 * 0x1_0000_0000_0000_0000);
        }
    }
}

/// The square of a difference is the square of its magnitude, and the
/// magnitude of a difference of coordinates has a square below 2 to the
/// power 128.
proof fn lemma_square_of_magnitude(difference: int, magnitude: int)
    requires
        magnitude == larger(difference, -difference),
        magnitude <= 0xffff_ffff_ffff_ffff,
    ensures
        magnitude * magnitude == difference * difference,
        0 <= magnitude * magnitude <= 0xffff_ffff_ffff_fffe_0000_0000_0000_0001,
{
    assert(magnitude * magnitude == difference * difference && 0 <= magnitude * magnitude
        <= 0xffff_ffff_ffff_fffe_0000_0000_0000_0001) by (nonlinear_arith)
        requires
            magnitude == difference || magnitude == -difference,
            0 <= magnitude <= 0xffff_ffff_ffff_ffff,
    {
        assert(magnitude * magnitude <= 0xffff_ffff_ffff_ffff * 0xffff_ffff_ffff_ffff);
    }
}

/// The distance between two coordinates.
fn distance_along(from: isize, to: isize) -> (distance: u128)
    ensures
        distance == larger(to - from, from - to),
        distance <= 0xffff_ffff_ffff_ffff,
{
    let difference: i128 = to as i128 - from as i128;
    if difference < 0 {
        (-difference) as u128
    } else {
        difference as u128
    }
}

/// The square root of `n`, rounded down.
pub(crate) fn floor_sqrt_u128(n: u128) -> (root: u64)
    ensures
        is_floor_sqrt(n as int, root as int),
{
    let mut low: u128 = 0;
    let mut high: u128 = 0x1_0000_0000_0000_0000;
    assert(low * low <= n < high * high) by (nonlinear_arith)
        requires
            low == 0,
            high == 0x1_0000_0000_0000_0000,
            n <= 0xffff_ffff_ffff_ffff_ffff_ffff_ffff_ffff,
    ;
    while high - low > 1
        invariant
            0 <= low < high <= 0x1_0000_0000_0000_0000,
            low * low <= n < high * high,
        decreases high - low,
    {
        let middle = low + (high - low) / 2;
        assert(middle * middle <= 0xffff_ffff_ffff_ffff * 0xffff_ffff_ffff_ffff)
            by (nonlinear_arith)
            requires
                0 <= middle <= 0xffff_ffff_ffff_ffff,
        ;
        if middle * middle <= n {
            low = middle;
        } else {
            high = middle;
        }
    }
    low as u64
}

/// The smaller of two coordinates.
fn lesser(a: isize, b: isize) -> (least: isize)
    ensures
        least == smaller(a as int, b as int),
{
    if a <= b {
        a
    } else {
        b
    }
}

/// The larger of two coordinates.
fn greater(a: isize, b: isize) -> (most: isize)
    ensures
        most == larger(a as int, b as int),
{
    if a >= b {
        a
    } else {
        b
    }
}

} // verus!

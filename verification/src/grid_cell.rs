use vstd::prelude::*;
use vstd::std_specs::ops::AddSpecImpl;
use vstd::std_specs::ops::SubSpecImpl;
use crate::error::StitchError;

verus! {

/// A point of the integer lattice. A cell of the grid is named by its
/// bottom-left lattice point.
#[derive(Copy, Clone, Debug, PartialEq, Eq, Hash, Structural)]
pub struct GridCell {
    pub x: isize,
    pub y: isize,
}

impl Default for GridCell {
    fn default() -> (cell: Self)
        ensures
            cell == (GridCell { x: 0, y: 0 }),
    {
        GridCell { x: 0, y: 0 }
    }
}

impl GridCell {
    /// Side of a cell on screen, in pixels.
    pub const SIZE: u16 = 20;

    /// The exact squared Euclidean distance between two lattice points.
    pub open spec fn squared_distance(self, other: Self) -> int {
        (other.x - self.x) * (other.x - self.x) + (other.y - self.y) * (other.y - self.y)
    }

    pub fn new(x: isize, y: isize) -> (cell: GridCell)
        ensures
            cell == (GridCell { x, y }),
    {
        Self { x, y }
    }

    /// Squared Euclidean distance to `other`, or `ArithmeticOverflow` when it
    /// does not fit the signed coordinate width.
    pub fn euclidean_distance_squared(&self, other: &Self) -> (res: Result<usize, StitchError>)
        ensures
            self.squared_distance(*other) <= isize::MAX ==> res == Ok::<usize, StitchError>(
                self.squared_distance(*other) as usize,
            ),
            self.squared_distance(*other) > isize::MAX ==> res == Err::<usize, StitchError>(
                StitchError::ArithmeticOverflow,
            ),
    {
        sum_of_squares(other.x as i128 - self.x as i128, other.y as i128 - self.y as i128)
    }

    /// The mirror image in the x-axis.
    pub fn invert_y(&self) -> (cell: Self)
        requires
            self.y > isize::MIN,
        ensures
            cell.x == self.x,
            cell.y == -self.y,
    {
        GridCell { x: self.x, y: -self.y }
    }
}

/// The sum of the squares of two differences of coordinates, or
/// `ArithmeticOverflow` when it does not fit the signed coordinate width.
pub(crate) fn sum_of_squares(dx: i128, dy: i128) -> (res: Result<usize, StitchError>)
    requires
        -0x2_0000_0000_0000_0000 <= dx <= 0x2_0000_0000_0000_0000,
        -0x2_0000_0000_0000_0000 <= dy <= 0x2_0000_0000_0000_0000,
    ensures
        dx * dx + dy * dy <= isize::MAX ==> res == Ok::<usize, StitchError>(
            (dx * dx + dy * dy) as usize,
        ),
        dx * dx + dy * dy > isize::MAX ==> res == Err::<usize, StitchError>(
            StitchError::ArithmeticOverflow,
        ),
{
    let limit: i128 = isize::MAX as i128;
    proof {
        lemma_square_bounds(dx as int, dy as int, limit as int);
    }
    if dx > limit || dx < -limit || dy > limit || dy < -limit {
        return Err(StitchError::ArithmeticOverflow);
    }
    let total: i128 = dx * dx + dy * dy;
    if total > limit {
        Err(StitchError::ArithmeticOverflow)
    } else {
        Ok(total as usize)
    }
}

/// A squared distance is not negative, and it is the same in both directions.
pub proof fn lemma_squared_distance(first: GridCell, second: GridCell)
    ensures
        first.squared_distance(second) >= 0,
        first.squared_distance(second) == second.squared_distance(first),
{
    let dx = second.x - first.x;
    let dy = second.y - first.y;
    assert(dx * dx >= 0 && dy * dy >= 0 && dx * dx == (-dx) * (-dx) && dy * dy == (-dy) * (-dy))
        by (nonlinear_arith);
}

/// Squares are non-negative, a square is at least the magnitude of its root,
/// and a root within `limit` has a square within `limit * limit`.
proof fn lemma_square_bounds(dx: int, dy: int, limit: int)
    requires
        0 < limit < 0x8000_0000_0000_0000,
    ensures
        dx * dx >= 0,
        dy * dy >= 0,
        dx * dx >= dx,
        dx * dx >= -dx,
        dy * dy >= dy,
        dy * dy >= -dy,
        -limit <= dx <= limit ==> dx * dx <= 0x3fff_ffff_ffff_ffff_0000_0000_0000_0001,
        -limit <= dy <= limit ==> dy * dy <= 0x3fff_ffff_ffff_ffff_0000_0000_0000_0001,
{
    assert(dx * dx >= 0 && dx * dx >= dx && dx * dx >= -dx) by (nonlinear_arith);
    assert(dy * dy >= 0 && dy * dy >= dy && dy * dy >= -dy) by (nonlinear_arith);
    assert(-limit <= dx <= limit ==> dx * dx <= 0x3fff_ffff_ffff_ffff_0000_0000_0000_0001)
        by (nonlinear_arith)
        requires
            0 < limit < 0x8000_0000_0000_0000,
    {
        if -limit <= dx <= limit {
            assert(dx * dx <= limit * limit);
            assert(limit * limit <= 0x7fff_ffff_ffff_ffff * 0x7fff_ffff_ffff_ffff);
        }
    }
    assert(-limit <= dy <= limit ==> dy * dy <= 0x3fff_ffff_ffff_ffff_0000_0000_0000_0001)
        by (nonlinear_arith)
        requires
            0 < limit < 0x8000_0000_0000_0000,
    {
        if -limit <= dy <= limit {
            assert(dy * dy <= limit * limit);
            assert(limit * limit <= 0x7fff_ffff_ffff_ffff * 0x7fff_ffff_ffff_ffff);
        }
    }
}

impl core::ops::Add for GridCell {
    type Output = Self;

    fn add(self, rhs: Self) -> (sum: Self) {
        GridCell { x: self.x + rhs.x, y: self.y + rhs.y }
    }
}

impl AddSpecImpl for GridCell {
    open spec fn obeys_add_spec() -> bool {
        true
    }

    open spec fn add_req(self, rhs: Self) -> bool {
        &&& isize::MIN <= self.x + rhs.x <= isize::MAX
        &&& isize::MIN <= self.y + rhs.y <= isize::MAX
    }

    open spec fn add_spec(self, rhs: Self) -> Self {
        GridCell { x: (self.x + rhs.x) as isize, y: (self.y + rhs.y) as isize }
    }
}

impl core::ops::Sub for GridCell {
    type Output = Self;

    fn sub(self, rhs: Self) -> (difference: Self) {
        GridCell { x: self.x - rhs.x, y: self.y - rhs.y }
    }
}

impl SubSpecImpl for GridCell {
    open spec fn obeys_sub_spec() -> bool {
        true
    }

    open spec fn sub_req(self, rhs: Self) -> bool {
        &&& isize::MIN <= self.x - rhs.x <= isize::MAX
        &&& isize::MIN <= self.y - rhs.y <= isize::MAX
    }

    open spec fn sub_spec(self, rhs: Self) -> Self {
        GridCell { x: (self.x - rhs.x) as isize, y: (self.y - rhs.y) as isize }
    }
}

} // verus!

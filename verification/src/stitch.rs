use vstd::prelude::*;
use vstd::std_specs::iter::IteratorSpec;
use crate::error::StitchError;
use crate::grid_cell::GridCell;
use crate::grid_cell::sum_of_squares;
use crate::symbolic_sum::ExactSum;
use crate::symbolic_sum::SymbolicSum;
use crate::symbolic_sum::lemma_zero_rendered;

verus! {

/// The corner of a unit cell at which a half-stitch starts. The corners form
/// a cycle round the cell: bottom left, top left, top right, bottom right.
#[derive(Debug, Clone, PartialEq, Eq, Copy, Hash, Structural)]
pub enum StartingStitchCorner {
    BottomLeft,
    TopLeft,
    TopRight,
    BottomRight,
}

impl Default for StartingStitchCorner {
    fn default() -> (corner: Self)
        ensures
            corner == StartingStitchCorner::BottomLeft,
    {
        StartingStitchCorner::BottomLeft
    }
}

impl StartingStitchCorner {
    /// Place of the corner in the cycle, from 0 to 3.
    pub open spec fn position(self) -> int {
        match self {
            StartingStitchCorner::BottomLeft => 0,
            StartingStitchCorner::TopLeft => 1,
            StartingStitchCorner::TopRight => 2,
            StartingStitchCorner::BottomRight => 3,
        }
    }

    /// The corner at a place of the cycle; places are taken modulo 4.
    pub open spec fn at_position(place: int) -> Self {
        let p = place % 4;
        if p == 0 {
            StartingStitchCorner::BottomLeft
        } else if p == 1 {
            StartingStitchCorner::TopLeft
        } else if p == 2 {
            StartingStitchCorner::TopRight
        } else {
            StartingStitchCorner::BottomRight
        }
    }

    /// The corner `steps` places further round the cycle.
    pub open spec fn stepped(self, steps: int) -> Self {
        Self::at_position(self.position() + steps)
    }

    /// The diagonally opposite corner: two steps round the cycle.
    pub open spec fn opposite(self) -> Self {
        self.stepped(2)
    }

    /// The two neighbouring corners: one step and three steps round the cycle.
    pub open spec fn adjacent(self) -> Seq<Self> {
        seq![self.stepped(1), self.stepped(3)]
    }

    /// Horizontal offset of the corner from the bottom-left lattice point of its cell.
    pub open spec fn offset_x(self) -> int {
        match self {
            StartingStitchCorner::BottomLeft => 0,
            StartingStitchCorner::TopLeft => 0,
            StartingStitchCorner::TopRight => 1,
            StartingStitchCorner::BottomRight => 1,
        }
    }

    /// Vertical offset of the corner from the bottom-left lattice point of its cell.
    pub open spec fn offset_y(self) -> int {
        match self {
            StartingStitchCorner::BottomLeft => 0,
            StartingStitchCorner::TopLeft => 1,
            StartingStitchCorner::TopRight => 1,
            StartingStitchCorner::BottomRight => 0,
        }
    }

    /// The name of the corner in words.
    pub open spec fn label(self) -> Seq<char> {
        match self {
            StartingStitchCorner::BottomLeft => "Bottom Left"@,
            StartingStitchCorner::BottomRight => "Bottom Right"@,
            StartingStitchCorner::TopLeft => "Top Left"@,
            StartingStitchCorner::TopRight => "Top Right"@,
        }
    }

    fn place(&self) -> (p: u8)
        ensures
            p == self.position(),
    {
        match self {
            StartingStitchCorner::BottomLeft => 0,
            StartingStitchCorner::TopLeft => 1,
            StartingStitchCorner::TopRight => 2,
            StartingStitchCorner::BottomRight => 3,
        }
    }

    fn from_place(p: u8) -> (corner: Self)
        requires
            p < 4,
        ensures
            corner == Self::at_position(p as int),
    {
        if p == 0 {
            StartingStitchCorner::BottomLeft
        } else if p == 1 {
            StartingStitchCorner::TopLeft
        } else if p == 2 {
            StartingStitchCorner::TopRight
        } else {
            StartingStitchCorner::BottomRight
        }
    }

    /// Get the corners where the alternate stitch can start.
    /// Given a bottom stitch's starting corner, there are two options to make a cross.
    pub fn get_possible_top_stitch_corners(&self) -> (corners: [Self; 2])
        ensures
            corners@ == self.adjacent(),
    {
        let first_option: u8 = (self.place() + 1) % 4;
        let second_option: u8 = (self.place() + 3) % 4;
        let corners = [Self::from_place(first_option), Self::from_place(second_option)];
        assert(corners@ =~= self.adjacent());
        corners
    }

    pub fn get_offset_from_bottom_left(&self) -> (offset: GridCell)
        ensures
            offset.x == self.offset_x(),
            offset.y == self.offset_y(),
    {
        match self {
            StartingStitchCorner::BottomLeft => GridCell::new(0, 0),
            StartingStitchCorner::BottomRight => GridCell::new(1, 0),
            StartingStitchCorner::TopLeft => GridCell::new(0, 1),
            StartingStitchCorner::TopRight => GridCell::new(1, 1),
        }
    }

    pub fn get_opposite_corner(&self) -> (corner: StartingStitchCorner)
        ensures
            corner == self.opposite(),
    {
        Self::from_place((self.place() + 2) % 4)
    }

    /// The name of the corner in words, as shown to the user.
    pub fn to_string(&self) -> (text: String)
        ensures
            text@ == self.label(),
    {
        match self {
            StartingStitchCorner::BottomLeft => String::from_str("Bottom Left"),
            StartingStitchCorner::BottomRight => String::from_str("Bottom Right"),
            StartingStitchCorner::TopLeft => String::from_str("Top Left"),
            StartingStitchCorner::TopRight => String::from_str("Top Right"),
        }
    }
}

/// Round the cycle of corners: the opposite of the opposite of a corner is
/// the corner itself; the two adjacent corners differ from each other, from
/// the corner and from its opposite.
pub proof fn lemma_corner_cycle(c: StartingStitchCorner)
    ensures
        c.opposite().opposite() == c,
        c.opposite() != c,
        c.adjacent().len() == 2,
        c.adjacent()[0] != c.adjacent()[1],
        !c.adjacent().contains(c),
        !c.adjacent().contains(c.opposite()),
{
}

/// One diagonal stitch across a unit cell, from `start` to the opposite
/// corner of the same cell.
#[derive(PartialEq, Eq, Copy, Clone, Debug, Hash, Structural)]
pub struct HalfStitch {
    /// The lattice point at which the stitch starts: the bottom-left point of
    /// its cell moved by the offset of `stitch_corner`.
    pub start: GridCell,
    pub stitch_corner: StartingStitchCorner,
    /// A number by which callers order what they draw; no rule here reads it.
    pub order: usize,
}

impl Default for HalfStitch {
    fn default() -> (stitch: Self)
        ensures
            stitch == (HalfStitch {
                start: GridCell { x: 0, y: 0 },
                stitch_corner: StartingStitchCorner::BottomLeft,
                order: 0,
            }),
    {
        HalfStitch {
            start: GridCell { x: 0, y: 0 },
            stitch_corner: StartingStitchCorner::BottomLeft,
            order: 0,
        }
    }
}

impl HalfStitch {
    /// Horizontal coordinate of the point where the stitch ends.
    pub open spec fn end_x(self) -> int {
        self.start.x - self.stitch_corner.offset_x() + self.stitch_corner.opposite().offset_x()
    }

    /// Vertical coordinate of the point where the stitch ends.
    pub open spec fn end_y(self) -> int {
        self.start.y - self.stitch_corner.offset_y() + self.stitch_corner.opposite().offset_y()
    }

    /// Whether the end of the stitch is a lattice point that `GridCell` can hold.
    pub open spec fn end_is_representable(self) -> bool {
        &&& isize::MIN <= self.end_x() <= isize::MAX
        &&& isize::MIN <= self.end_y() <= isize::MAX
    }

    /// Whether the stitch ends exactly at `point`.
    pub open spec fn ends_at(self, point: GridCell) -> bool {
        self.end_x() == point.x && self.end_y() == point.y
    }

    /// Whether `cells[i]` has occurred at an earlier place of the selection.
    pub open spec fn seen_before(cells: Seq<GridCell>, i: int) -> bool {
        exists|j: int| 0 <= j < i && cells[j] == cells[i]
    }

    /// The corner that the `i`-th selected cell is stitched from: the first
    /// corner on the first occurrence of a cell, the second corner afterwards.
    pub open spec fn corner_for(
        cells: Seq<GridCell>,
        i: int,
        first: StartingStitchCorner,
        second: StartingStitchCorner,
    ) -> StartingStitchCorner {
        if Self::seen_before(cells, i) {
            second
        } else {
            first
        }
    }

    /// Whether the start of the stitch for the `i`-th selected cell is a
    /// lattice point that `GridCell` can hold.
    pub open spec fn start_is_representable(
        cells: Seq<GridCell>,
        i: int,
        first: StartingStitchCorner,
        second: StartingStitchCorner,
    ) -> bool {
        &&& cells[i].x + Self::corner_for(cells, i, first, second).offset_x() <= isize::MAX
        &&& cells[i].y + Self::corner_for(cells, i, first, second).offset_y() <= isize::MAX
    }

    /// Whether `stitches` is the sequence that the selection `cells` gives.
    pub open spec fn converts(
        cells: Seq<GridCell>,
        first: StartingStitchCorner,
        second: StartingStitchCorner,
        stitches: Seq<HalfStitch>,
    ) -> bool {
        &&& stitches.len() == cells.len()
        &&& forall|i: int|
            0 <= i < cells.len() ==> {
                let corner = Self::corner_for(cells, i, first, second);
                &&& (#[trigger] stitches[i]).stitch_corner == corner
                &&& stitches[i].start.x == cells[i].x + corner.offset_x()
                &&& stitches[i].start.y == cells[i].y + corner.offset_y()
                &&& stitches[i].order == 0
            }
    }

    /// Whether the stitch at place `i` starts where the stitch before it ends.
    pub open spec fn joins_previous(stitches: Seq<HalfStitch>, i: int) -> bool {
        1 <= i < stitches.len() && stitches[i - 1].ends_at(stitches[i].start)
    }

    /// A sequence is valid when no stitch starts where the stitch before it ends.
    pub open spec fn is_valid_sequence(stitches: Seq<HalfStitch>) -> bool {
        forall|i: int| !Self::joins_previous(stitches, i)
    }

    /// Whether `i` is the first place at which a stitch starts where the
    /// stitch before it ends.
    pub open spec fn is_first_join(stitches: Seq<HalfStitch>, i: int) -> bool {
        &&& Self::joins_previous(stitches, i)
        &&& forall|j: int| j < i ==> !Self::joins_previous(stitches, j)
    }

    /// The square of the distance that the thread travels on the back of
    /// the fabric from the end of the stitch before place `i` to the start
    /// of the stitch at place `i`.
    pub open spec fn travel_squared(stitches: Seq<HalfStitch>, i: int) -> int {
        let across = stitches[i].start.x - stitches[i - 1].end_x();
        let up = stitches[i].start.y - stitches[i - 1].end_y();
        across * across + up * up
    }

    /// The exact distance that the thread travels on the back of the fabric
    /// between the first `count` stitches, or `None` where a squared
    /// distance or the sum overflows.
    pub open spec fn travel_cost(stitches: Seq<HalfStitch>, count: nat) -> Option<ExactSum>
        decreases count,
    {
        if count <= 1 {
            Some(ExactSum::zero())
        } else {
            match Self::travel_cost(stitches, (count - 1) as nat) {
                Some(sum) => sum.plus_squared(Self::travel_squared(stitches, count - 1)),
                None => None,
            }
        }
    }

    pub fn get_end_location(&self) -> (end: GridCell)
        requires
            self.end_is_representable(),
        ensures
            self.ends_at(end),
    {
        let origin = self.start - self.stitch_corner.get_offset_from_bottom_left();
        origin + self.stitch_corner.get_opposite_corner().get_offset_from_bottom_left()
    }

    /// Whether the stitch ends at `point`. Unlike `get_end_location` this is
    /// answered for every stitch, also one that ends outside the lattice
    /// points that `GridCell` can hold.
    pub fn ends_at_point(&self, point: &GridCell) -> (hit: bool)
        ensures
            hit == self.ends_at(*point),
    {
        let from = self.stitch_corner.get_offset_from_bottom_left();
        let to = self.stitch_corner.get_opposite_corner().get_offset_from_bottom_left();
        let end_x: i128 = self.start.x as i128 - from.x as i128 + to.x as i128;
        let end_y: i128 = self.start.y as i128 - from.y as i128 + to.y as i128;
        end_x == point.x as i128 && end_y == point.y as i128
    }

    /// Turns a selection of cells into half-stitches, one for each selected
    /// cell and in the same order. The first occurrence of a cell is stitched
    /// from `first_stitch_direction`, every later occurrence from
    /// `second_stitch_direction`. Every stitch is given order 0.
    pub fn convert_grid_cells<'a>(
        cells: impl Iterator<Item = &'a GridCell>,
        first_stitch_direction: StartingStitchCorner,
        second_stitch_direction: StartingStitchCorner,
    ) -> (out: Vec<HalfStitch>)
        requires
            cells.obeys_prophetic_iter_laws(),
            cells.decrease() is Some,
            forall|i: int|
                0 <= i < cells.remaining().len() ==> Self::start_is_representable(
                    cells.remaining().unref(),
                    i,
                    first_stitch_direction,
                    second_stitch_direction,
                ),
        ensures
            Self::converts(
                cells.remaining().unref(),
                first_stitch_direction,
                second_stitch_direction,
                out@,
            ),
    {
        let ghost all = cells.remaining().unref();
        let mut seen_cells: Vec<GridCell> = Vec::new();
        let mut out: Vec<HalfStitch> = Vec::new();
        let mut rest = cells;
        loop
            invariant
                rest.obeys_prophetic_iter_laws(),
                rest.decrease() is Some,
                all == cells.remaining().unref(),
                out@.len() + rest.remaining().len() == all.len(),
                forall|k: int|
                    0 <= k < rest.remaining().len() ==> *(#[trigger] rest.remaining()[k]) == all[
                        out@.len() + k],
                forall|i: int|
                    0 <= i < all.len() ==> Self::start_is_representable(
                        all,
                        i,
                        first_stitch_direction,
                        second_stitch_direction,
                    ),
                Self::converts(
                    all.take(out@.len() as int),
                    first_stitch_direction,
                    second_stitch_direction,
                    out@,
                ),
                forall|c: GridCell|
                    seen_cells@.contains(c) <==> all.take(out@.len() as int).contains(c),
            decreases rest.decrease()->0,
        {
            let ghost done = out@.len() as int;
            match rest.next() {
                None => {
                    assert(all.take(done) =~= all);
                    return out;
                },
                Some(cell) => {
                    assert(*cell == all[done]);
                    let seen = contains_cell(&seen_cells, cell);
                    proof {
                        lemma_seen_before_is_membership(all, done);
                        assert(Self::start_is_representable(
                            all,
                            done,
                            first_stitch_direction,
                            second_stitch_direction,
                        ));
                    }
                    let corner = if seen {
                        second_stitch_direction
                    } else {
                        first_stitch_direction
                    };
                    let offset = corner.get_offset_from_bottom_left();
                    let ghost seen_so_far = seen_cells@;
                    out.push(HalfStitch { start: *cell + offset, stitch_corner: corner, order: 0 });
                    if !seen {
                        seen_cells.push(*cell);
                    }
                    proof {
                        let before = all.take(done);
                        let after = all.take(done + 1);
                        assert(after =~= before.push(all[done]));
                        assert forall|c: GridCell|
                            seen_cells@.contains(c) <==> after.contains(c) by {
                            lemma_push_contains(before, all[done], c);
                            lemma_push_contains(seen_so_far, all[done], c);
                        }
                        assert forall|i: int| 0 <= i < after.len() implies {
                            let c = Self::corner_for(
                                after,
                                i,
                                first_stitch_direction,
                                second_stitch_direction,
                            );
                            &&& (#[trigger] out@[i]).stitch_corner == c
                            &&& out@[i].start.x == after[i].x + c.offset_x()
                            &&& out@[i].start.y == after[i].y + c.offset_y()
                            &&& out@[i].order == 0
                        } by {
                            lemma_seen_before_in_prefix(all, done + 1, i);
                            if i < done {
                                lemma_seen_before_in_prefix(all, done, i);
                            }
                        }
                    }
                },
            }
        }
    }

    /// Checks that no stitch starts where the stitch before it ends. The
    /// first pair that does is reported by the starts of its two stitches.
    pub fn _check_valid_sequence(stitches: &[HalfStitch]) -> (res: Result<(), (GridCell, GridCell)>)
        ensures
            res is Ok <==> Self::is_valid_sequence(stitches@),
            res matches Err(pair) ==> exists|i: int|
                Self::is_first_join(stitches@, i) && pair == (
                    stitches@[i - 1].start,
                    stitches@[i].start,
                ),
    {
        let mut i: usize = 1;
        while i < stitches.len()
            invariant
                1 <= i,
                forall|j: int| j < i ==> !Self::joins_previous(stitches@, j),
            decreases stitches.len() - i,
        {
            let last = &stitches[i - 1];
            let stitch = &stitches[i];
            if last.ends_at_point(&stitch.start) {
                assert(Self::is_first_join(stitches@, i as int));
                return Err((last.start, stitch.start));
            }
            i += 1;
        }
        Ok(())
    }

    /// The square of the distance from the end of the stitch to the start of
    /// `next`, or `ArithmeticOverflow` when it does not fit the signed
    /// coordinate width.
    pub fn travel_squared_to(&self, next: &HalfStitch) -> (res: Result<usize, StitchError>)
        ensures
            ({
                let across = next.start.x - self.end_x();
                let up = next.start.y - self.end_y();
                &&& across * across + up * up <= isize::MAX ==> res == Ok::<usize, StitchError>(
                    (across * across + up * up) as usize,
                )
                &&& across * across + up * up > isize::MAX ==> res == Err::<usize, StitchError>(
                    StitchError::ArithmeticOverflow,
                )
            }),
    {
        let from = self.stitch_corner.get_offset_from_bottom_left();
        let to = self.stitch_corner.get_opposite_corner().get_offset_from_bottom_left();
        let end_x: i128 = self.start.x as i128 - from.x as i128 + to.x as i128;
        let end_y: i128 = self.start.y as i128 - from.y as i128 + to.y as i128;
        sum_of_squares(next.start.x as i128 - end_x, next.start.y as i128 - end_y)
    }

    /// Calculate the total cost of the sequence of half-stitches.
    /// This is in units, where one unit is the distance between cells.
    /// It does not include the length of the actual stitch, just distance on the 'back'.
    /// Calculated exactly, as a sum of whole multiples of square roots.
    pub fn _calculate_cost_symbolic(stitches: &[HalfStitch]) -> (res: Result<
        SymbolicSum,
        StitchError,
    >)
        ensures
            match Self::travel_cost(stitches@, stitches@.len()) {
                Some(sum) => res matches Ok(distance) && distance@ == sum,
                None => res matches Err(error) && error == StitchError::ArithmeticOverflow,
            },
    {
        let mut distance = SymbolicSum::default();
        let mut i: usize = 1;
        while i < stitches.len()
            invariant
                1 <= i,
                Self::travel_cost(stitches@, smaller_count(i as nat, stitches@.len())) == Some(
                    distance@,
                ),
            decreases stitches.len() - i,
        {
            proof {
                lemma_sum_of_squares_not_negative(
                    stitches@[i as int].start.x - stitches@[i - 1].end_x(),
                    stitches@[i as int].start.y - stitches@[i - 1].end_y(),
                );
            }
            let squared = match stitches[i - 1].travel_squared_to(&stitches[i]) {
                Ok(squared) => squared,
                Err(error) => {
                    proof {
                        lemma_travel_cost_stays_none(stitches@, (i + 1) as nat, stitches@.len());
                    }
                    return Err(error);
                },
            };
            match distance.add_root(squared) {
                Ok(()) => {},
                Err(error) => {
                    proof {
                        lemma_travel_cost_stays_none(stitches@, (i + 1) as nat, stitches@.len());
                    }
                    return Err(error);
                },
            }
            i += 1;
        }
        Ok(distance)
    }

    /// The exact distance that the thread travels on the back of the fabric
    /// in a valid sequence, as text.
    pub fn check_valid_sequence_symbolic(stitches: &[HalfStitch]) -> (res: Result<
        String,
        StitchError,
    >)
        ensures
            !Self::is_valid_sequence(stitches@) ==> exists|i: int|
                Self::is_first_join(stitches@, i) && res == Err::<String, StitchError>(
                    StitchError::InvalidSequence(stitches@[i - 1].start, stitches@[i].start),
                ),
            Self::is_valid_sequence(stitches@) ==> match Self::travel_cost(
                stitches@,
                stitches@.len(),
            ) {
                Some(sum) => res matches Ok(text) && text@ == sum.rendered(),
                None => res matches Err(error) && error == StitchError::ArithmeticOverflow,
            },
    {
        match Self::_check_valid_sequence(stitches) {
            Ok(()) => {},
            Err((first, second)) => {
                return Err(StitchError::InvalidSequence(first, second));
            },
        }
        match HalfStitch::_calculate_cost_symbolic(stitches) {
            Ok(distance) => Ok(distance.to_string()),
            Err(error) => Err(error),
        }
    }
}

/// A pushed sequence contains what the sequence contained and the pushed element.
proof fn lemma_push_contains(s: Seq<GridCell>, x: GridCell, c: GridCell)
    ensures
        s.push(x).contains(c) <==> (s.contains(c) || c == x),
{
    if s.push(x).contains(c) {
        let i = choose|i: int| 0 <= i < s.push(x).len() && s.push(x)[i] == c;
        if i < s.len() {
            assert(s[i] == c);
        }
    }
    if s.contains(c) {
        let i = choose|i: int| 0 <= i < s.len() && s[i] == c;
        assert(s.push(x)[i] == c);
    }
    if c == x {
        assert(s.push(x)[s.len() as int] == c);
    }
}

/// A cell has been seen before place `i` exactly when the cells before
/// place `i` contain it.
proof fn lemma_seen_before_is_membership(cells: Seq<GridCell>, i: int)
    requires
        0 <= i < cells.len(),
    ensures
        HalfStitch::seen_before(cells, i) <==> cells.take(i).contains(cells[i]),
{
    if HalfStitch::seen_before(cells, i) {
        let j = choose|j: int| 0 <= j < i && cells[j] == cells[i];
        assert(cells.take(i)[j] == cells[i]);
    }
    if cells.take(i).contains(cells[i]) {
        let j = choose|j: int| 0 <= j < cells.take(i).len() && cells.take(i)[j] == cells[i];
        assert(cells[j] == cells[i]);
    }
}

/// Whether a cell has been seen before depends only on the cells up to it.
proof fn lemma_seen_before_in_prefix(cells: Seq<GridCell>, n: int, i: int)
    requires
        0 <= i < n <= cells.len(),
    ensures
        HalfStitch::seen_before(cells.take(n), i) <==> HalfStitch::seen_before(cells, i),
{
    if HalfStitch::seen_before(cells.take(n), i) {
        let j = choose|j: int| 0 <= j < i && cells.take(n)[j] == cells.take(n)[i];
        assert(cells[j] == cells[i]);
    }
    if HalfStitch::seen_before(cells, i) {
        let j = choose|j: int| 0 <= j < i && cells[j] == cells[i];
        assert(cells.take(n)[j] == cells.take(n)[i]);
    }
}

/// Whether `cells` holds `cell`.
fn contains_cell(cells: &Vec<GridCell>, cell: &GridCell) -> (found: bool)
    ensures
        found == cells@.contains(*cell),
{
    let mut i: usize = 0;
    while i < cells.len()
        invariant
            i <= cells.len(),
            forall|j: int| 0 <= j < i ==> cells@[j] != *cell,
        decreases cells.len() - i,
    {
        if cells[i] == *cell {
            return true;
        }
        i += 1;
    }
    false
}

/// The smaller of a count and a length.
spec fn smaller_count(count: nat, length: nat) -> nat {
    if count <= length {
        count
    } else {
        length
    }
}

/// A sum of two squares is not negative.
proof fn lemma_sum_of_squares_not_negative(across: int, up: int)
    ensures
        across * across + up * up >= 0,
{
    assert(across * across + up * up >= 0) by (nonlinear_arith);
}

/// Once the cost of a sequence has overflowed it stays overflowed however
/// many more stitches are counted.
proof fn lemma_travel_cost_stays_none(stitches: Seq<HalfStitch>, from: nat, to: nat)
    requires
        HalfStitch::travel_cost(stitches, from) is None,
        from <= to,
    ensures
        HalfStitch::travel_cost(stitches, to) is None,
    decreases to - from,
{
    if from < to {
        lemma_travel_cost_stays_none(stitches, from, (to - 1) as nat);
    }
}

/// A selection of cells gives one stitch for each cell, in the order of
/// the cells: the stitch at a place lies in the cell at that place, which is
/// where the stitch starts moved back by the offset of its corner, and its
/// corner is one of the two that were chosen. Nothing is dropped, merged or
/// put in another order.
pub proof fn lemma_conversion_keeps_cells(
    cells: Seq<GridCell>,
    first: StartingStitchCorner,
    second: StartingStitchCorner,
    stitches: Seq<HalfStitch>,
)
    requires
        HalfStitch::converts(cells, first, second, stitches),
    ensures
        stitches.len() == cells.len(),
        forall|i: int|
            0 <= i < cells.len() ==> {
                &&& (#[trigger] stitches[i]).start.x - stitches[i].stitch_corner.offset_x()
                    == cells[i].x
                &&& stitches[i].start.y - stitches[i].stitch_corner.offset_y() == cells[i].y
                &&& (stitches[i].stitch_corner == first || stitches[i].stitch_corner == second)
            },
{
}

/// A sequence of at most one stitch is valid, and the thread travels no
/// distance on its back: its cost is the empty sum, written "0".
pub proof fn lemma_single_stitch(stitches: Seq<HalfStitch>)
    requires
        stitches.len() <= 1,
    ensures
        HalfStitch::is_valid_sequence(stitches),
        HalfStitch::travel_cost(stitches, stitches.len()) == Some(ExactSum::zero()),
        ExactSum::zero().rendered() == seq!['0'],
{
    lemma_zero_rendered();
}

/// A stitch that starts at a corner of a cell ends at the opposite corner
/// of that cell: with the bottom-left point of the cell at `(x, y)`, the
/// end is `(x, y)` moved by the offset of the opposite corner.
pub proof fn lemma_end_is_opposite_corner(stitch: HalfStitch, x: int, y: int)
    requires
        stitch.start.x == x + stitch.stitch_corner.offset_x(),
        stitch.start.y == y + stitch.stitch_corner.offset_y(),
    ensures
        stitch.end_x() == x + stitch.stitch_corner.opposite().offset_x(),
        stitch.end_y() == y + stitch.stitch_corner.opposite().offset_y(),
{
}

} // verus!

use vstd::prelude::*;
use std::collections::VecDeque;
use crate::grid_cell::GridCell;

verus! {

/// The cells that the user has selected, in the order of selection. A cell
/// is selected at most twice when it is only changed through `select_cell`,
/// `unselect_cell` and `clear`.
#[derive(Debug)]
pub struct ProgramState {
    pub selected_cells: VecDeque<GridCell>,
}

/// How often `cell` occurs in `cells`.
pub open spec fn occurrences(cells: Seq<GridCell>, cell: GridCell) -> nat
    decreases cells.len(),
{
    if cells.len() == 0 {
        0
    } else if cells.last() == cell {
        occurrences(cells.drop_last(), cell) + 1
    } else {
        occurrences(cells.drop_last(), cell)
    }
}

/// The last place at which `cell` occurs in `cells`; -1 if it does not occur.
pub open spec fn last_place(cells: Seq<GridCell>, cell: GridCell) -> int
    decreases cells.len(),
{
    if cells.len() == 0 {
        -1
    } else if cells.last() == cell {
        cells.len() - 1
    } else {
        last_place(cells.drop_last(), cell)
    }
}

/// No cell occurs more than twice.
pub open spec fn at_most_twice(cells: Seq<GridCell>) -> bool {
    forall|cell: GridCell| occurrences(cells, cell) <= 2
}

impl View for ProgramState {
    type V = Seq<GridCell>;

    open spec fn view(&self) -> Seq<GridCell> {
        self.selected_cells@
    }
}

impl Default for ProgramState {
    fn default() -> (state: Self)
        ensures
            state@ == Seq::<GridCell>::empty(),
    {
        ProgramState { selected_cells: VecDeque::new() }
    }
}

impl ProgramState {
    /// How often `cell` is selected.
    pub fn count_of(&self, cell: &GridCell) -> (count: usize)
        ensures
            count == occurrences(self@, *cell),
    {
        let mut count: usize = 0;
        let mut i: usize = 0;
        assert(self@.take(0) =~= Seq::<GridCell>::empty());
        while i < self.selected_cells.len()
            invariant
                0 <= i <= self@.len(),
                count <= i,
                count == occurrences(self@.take(i as int), *cell),
            decreases self@.len() - i,
        {
            assert(self@.take(i + 1).drop_last() =~= self@.take(i as int));
            if self.selected_cells[i] == *cell {
                count += 1;
            }
            i += 1;
        }
        assert(self@.take(i as int) =~= self@);
        count
    }

    /// Selects `cell` once more, unless it is selected twice already.
    pub fn select_cell(&mut self, cell: GridCell)
        ensures
            occurrences(old(self)@, cell) < 2 ==> final(self)@ == old(self)@.push(cell),
            occurrences(old(self)@, cell) >= 2 ==> final(self)@ == old(self)@,
            at_most_twice(old(self)@) ==> at_most_twice(final(self)@),
    {
        let count = self.count_of(&cell);
        if count < 2 {
            proof {
                assert forall|other: GridCell| at_most_twice(self@) implies occurrences(
                    self@.push(cell),
                    other,
                ) <= 2 by {
                    lemma_occurrences_push(self@, cell, other);
                    assert(occurrences(self@, other) <= 2);
                }
            }
            self.selected_cells.push_back(cell);
        }
    }

    /// Takes back the last selection of `cell`, where it is selected once
    /// or twice.
    pub fn unselect_cell(&mut self, cell: GridCell)
        ensures
            1 <= occurrences(old(self)@, cell) <= 2 ==> final(self)@ == old(self)@.remove(
                last_place(old(self)@, cell),
            ),
            !(1 <= occurrences(old(self)@, cell) <= 2) ==> final(self)@ == old(self)@,
            at_most_twice(old(self)@) ==> at_most_twice(final(self)@),
    {
        let count = self.count_of(&cell);
        if count == 1 || count == 2 {
            proof {
                lemma_occurrences_contains(self@, cell);
            }
            self._remove_last_cell_in_vec(cell);
        }
    }

    fn _remove_last_cell_in_vec(&mut self, cell: GridCell)
        requires
            old(self)@.contains(cell),
        ensures
            0 <= last_place(old(self)@, cell) < old(self)@.len(),
            old(self)@[last_place(old(self)@, cell)] == cell,
            final(self)@ == old(self)@.remove(last_place(old(self)@, cell)),
            forall|other: GridCell|
                occurrences(final(self)@, other) <= occurrences(old(self)@, other),
    {
        let mut position: usize = self.selected_cells.len();
        assert(self@.take(position as int) =~= self@);
        while position > 0 && !(self.selected_cells[position - 1] == cell)
            invariant
                0 <= position <= self@.len(),
                self@.take(position as int).contains(cell),
                last_place(self@, cell) == last_place(self@.take(position as int), cell),
            decreases position,
        {
            proof {
                let shorter = self@.take(position as int);
                assert(shorter.drop_last() =~= self@.take(position - 1));
                let witness = choose|j: int| 0 <= j < shorter.len() && shorter[j] == cell;
                assert(self@.take(position - 1)[witness] == cell);
            }
            position -= 1;
        }
        proof {
            if position == 0 {
                let shorter = self@.take(0);
                let witness = choose|j: int| 0 <= j < shorter.len() && shorter[j] == cell;
            }
        }
        let real_position = position - 1;
        proof {
            assert forall|other: GridCell|
                occurrences(self@.remove(real_position as int), other) <= occurrences(
                    self@,
                    other,
                ) by {
                lemma_occurrences_remove(self@, real_position as int, other);
            }
        }
        self.selected_cells.remove(real_position);
    }

    pub fn clear(&mut self)
        ensures
            final(self)@ == Seq::<GridCell>::empty(),
    {
        self.selected_cells.clear();
    }
}

/// A cell pushed to the end of a sequence occurs once more; every other
/// cell occurs as often as before.
pub proof fn lemma_occurrences_push(cells: Seq<GridCell>, pushed: GridCell, cell: GridCell)
    ensures
        occurrences(cells.push(pushed), cell) == occurrences(cells, cell) + if pushed == cell {
            1nat
        } else {
            0nat
        },
{
    assert(cells.push(pushed).drop_last() =~= cells);
}

/// The cell removed from a sequence occurs once less; every other cell
/// occurs as often as before.
pub proof fn lemma_occurrences_remove(cells: Seq<GridCell>, place: int, cell: GridCell)
    requires
        0 <= place < cells.len(),
    ensures
        occurrences(cells, cell) == occurrences(cells.remove(place), cell) + if cells[place]
            == cell {
            1nat
        } else {
            0nat
        },
    decreases cells.len(),
{
    if place == cells.len() - 1 {
        assert(cells.remove(place) =~= cells.drop_last());
    } else {
        assert(cells.remove(place).drop_last() =~= cells.drop_last().remove(place));
        assert(cells.remove(place).last() == cells.last());
        lemma_occurrences_remove(cells.drop_last(), place, cell);
    }
}

/// A cell occurs in a sequence exactly when the sequence contains it.
pub proof fn lemma_occurrences_contains(cells: Seq<GridCell>, cell: GridCell)
    ensures
        occurrences(cells, cell) > 0 <==> cells.contains(cell),
    decreases cells.len(),
{
    if cells.len() > 0 {
        lemma_occurrences_contains(cells.drop_last(), cell);
        if cells.contains(cell) {
            let i = choose|i: int| 0 <= i < cells.len() && cells[i] == cell;
            if i < cells.len() - 1 {
                assert(cells.drop_last()[i] == cell);
            }
        }
        if cells.drop_last().contains(cell) {
            let i = choose|i: int| 0 <= i < cells.drop_last().len() && cells.drop_last()[i] == cell;
            assert(cells[i] == cell);
        }
        if cells.last() == cell {
            assert(cells[cells.len() - 1] == cell);
        }
    }
}

} // verus!

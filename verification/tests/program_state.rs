use cross_stitch_solver::grid_cell::GridCell;
use cross_stitch_solver::program_state::ProgramState;

fn selected(state: &ProgramState) -> Vec<GridCell> {
    state.selected_cells.iter().copied().collect()
}

#[test]
fn a_cell_is_selected_at_most_twice() {
    let mut state = ProgramState::default();
    let a = GridCell::new(1, 1);
    let b = GridCell::new(2, 1);
    state.select_cell(a);
    state.select_cell(b);
    state.select_cell(a);
    assert_eq!(selected(&state), vec![a, b, a]);
    state.select_cell(a);
    assert_eq!(selected(&state), vec![a, b, a]);
    assert_eq!(state.count_of(&a), 2);
    assert_eq!(state.count_of(&b), 1);
    assert_eq!(state.count_of(&GridCell::new(9, 9)), 0);
}

#[test]
fn unselecting_takes_the_last_selection_of_the_cell_back() {
    let mut state = ProgramState::default();
    let a = GridCell::new(1, 1);
    let b = GridCell::new(2, 1);
    let c = GridCell::new(3, 1);
    for cell in [a, b, a, c, b] {
        state.select_cell(cell);
    }
    state.unselect_cell(a);
    assert_eq!(selected(&state), vec![a, b, c, b]);
    state.unselect_cell(a);
    assert_eq!(selected(&state), vec![b, c, b]);
    state.unselect_cell(a);
    assert_eq!(selected(&state), vec![b, c, b]);
    state.unselect_cell(b);
    assert_eq!(selected(&state), vec![b, c]);
    state.unselect_cell(c);
    assert_eq!(selected(&state), vec![b]);
}

#[test]
fn a_cell_selected_more_than_twice_by_hand_is_left_alone() {
    let mut state = ProgramState::default();
    let a = GridCell::new(0, 0);
    for _ in 0..3 {
        state.selected_cells.push_back(a);
    }
    state.unselect_cell(a);
    assert_eq!(selected(&state), vec![a, a, a]);
    state.select_cell(a);
    assert_eq!(selected(&state), vec![a, a, a]);
}

#[test]
fn clear_forgets_every_selection() {
    let mut state = ProgramState::default();
    state.select_cell(GridCell::new(1, 1));
    state.select_cell(GridCell::new(1, 1));
    state.clear();
    assert_eq!(selected(&state), vec![]);
    state.select_cell(GridCell::new(1, 1));
    assert_eq!(selected(&state), vec![GridCell::new(1, 1)]);
}

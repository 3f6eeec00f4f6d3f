use life_engine::world::{ArrayWorld, CellState, ConstructableWorld, World, WorldIterator};

#[test]
fn new_grid_is_all_dead() {
    let w = <ArrayWorld as ConstructableWorld>::new(4, 3);
    assert_eq!(w.get_size(), (4, 3));
    for y in 0..3 {
        for x in 0..4 {
            assert_eq!(w.get_cell_state(x, y), Some(&CellState::Dead));
        }
    }
}

#[test]
fn out_of_bounds_read_is_none() {
    let w = <ArrayWorld as ConstructableWorld>::new(4, 3);
    assert_eq!(w.get_cell_state(4, 0), None);
    assert_eq!(w.get_cell_state(0, 3), None);
    // in range of the storage, but not a cell of the grid
    assert_eq!(w.get_cell_state(5, 1), None);
}

#[test]
fn set_returns_previous_state() {
    let mut w = <ArrayWorld as ConstructableWorld>::new(3, 3);
    assert_eq!(w.set_cell_state(2, 1, CellState::Alive), CellState::Dead);
    assert_eq!(w.set_cell_state(2, 1, CellState::Alive), CellState::Alive);
    assert_eq!(w.set_cell_state(2, 1, CellState::Dead), CellState::Alive);
    assert_eq!(w.get_cell_state(2, 1), Some(&CellState::Dead));
}

#[test]
fn wrapped_read_goes_round_both_axes() {
    let mut w = <ArrayWorld as ConstructableWorld>::new(5, 4);
    w.set_cell_state(4, 3, CellState::Alive);
    w.set_cell_state(0, 0, CellState::Alive);
    assert_eq!(w.get_cell_state_wrapped(-1, -1), &CellState::Alive);
    assert_eq!(w.get_cell_state_wrapped(5, 4), &CellState::Alive);
    assert_eq!(w.get_cell_state_wrapped(-6, -5), &CellState::Alive);
    assert_eq!(w.get_cell_state_wrapped(9, 7), &CellState::Alive);
    assert_eq!(w.get_cell_state_wrapped(-2, -1), &CellState::Dead);
    assert_eq!(w.get_cell_state_wrapped(i64::MIN, 0), w.get_cell_state(2, 0).unwrap());
}

#[test]
fn iterator_is_row_major_and_restartable() {
    let mut w = <ArrayWorld as ConstructableWorld>::new(3, 2);
    w.set_cell_state(1, 1, CellState::Alive);
    for _ in 0..2 {
        let mut it = w.into_iterator();
        let mut seen = Vec::new();
        while let Some((x, y, c)) = it.next() {
            seen.push((x, y, *c));
        }
        assert_eq!(seen.len(), 6);
        assert_eq!(seen[0], (0, 0, CellState::Dead));
        assert_eq!(seen[1], (1, 0, CellState::Dead));
        assert_eq!(seen[3], (0, 1, CellState::Dead));
        assert_eq!(seen[4], (1, 1, CellState::Alive));
        assert!(it.next().is_none());
    }
    let mut direct = WorldIterator::new(&w);
    assert_eq!(direct.next(), Some((0, 0, &CellState::Dead)));
}

#[test]
fn empty_grid_iterates_nothing() {
    let w = <ArrayWorld as ConstructableWorld>::new(0, 5);
    assert!(w.into_iterator().next().is_none());
}

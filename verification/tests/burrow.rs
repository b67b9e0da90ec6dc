//! The burrow board geometry and state operations.

use advent::burrow::{Cell, Move, State, cell_coord, cell_index_at_coord};

fn state(cells: Vec<Cell>) -> State {
    State { cells, cost: 0 }
}

#[test]
fn cell_coords_round_trip() {
    for idx in 0..23 {
        let c = cell_coord(idx);
        assert_eq!(cell_index_at_coord(c), Some(idx));
    }
    assert_eq!(cell_coord(0), (0, 1));
    assert_eq!(cell_coord(6), (0, 11));
    assert_eq!(cell_coord(7), (1, 3));
    assert_eq!(cell_coord(22), (4, 9));
    assert_eq!(cell_index_at_coord((0, 3)), None);
    assert_eq!(cell_index_at_coord((5, 3)), None);
}

#[test]
fn cell_weights_and_targets() {
    assert_eq!(Cell::A.weight(), 1);
    assert_eq!(Cell::B.weight(), 10);
    assert_eq!(Cell::C.weight(), 100);
    assert_eq!(Cell::D.weight(), 1000);
    assert_eq!(Cell::E.weight(), 0);
    assert_eq!(Cell::A.target_column(), 3);
    assert_eq!(Cell::B.target_column(), 5);
    assert_eq!(Cell::C.target_column(), 7);
    assert_eq!(Cell::D.target_column(), 9);
}

#[test]
fn cells_hash_is_base_five() {
    let s = state(vec![Cell::A, Cell::B, Cell::C]);
    // base 5, most significant first: ((1 * 5) + 2) * 5 + 3
    assert_eq!(s.cells_hash(), 38);
    let empty = state(vec![]);
    assert_eq!(empty.cells_hash(), 0);
}

#[test]
fn amphipod_count_skips_empty_cells() {
    let s = state(vec![Cell::E, Cell::A, Cell::E, Cell::D, Cell::D]);
    assert_eq!(s.amphipod_count(), 3);
}

#[test]
fn get_move_computes_rectilinear_cost() {
    let mut cells = vec![Cell::E; 23];
    cells[7] = Cell::B;
    let s = state(cells);
    // cell 7 is at (1, 3); hallway stop (0, 1) is 1 + 2 = 3 steps away
    let m = s.get_move(7, (0, 1)).expect("a hallway cell");
    assert_eq!(m.orig_idx, 7);
    assert_eq!(m.dest_idx, 0);
    assert_eq!(m.cost, 3 * 10);
    // (0, 3) is a doorway, not a cell
    assert!(s.get_move(7, (0, 3)).is_none());
}

#[test]
fn apply_move_shifts_one_amphipod() {
    let mut cells = vec![Cell::E; 23];
    cells[7] = Cell::C;
    let s = State { cells, cost: 40 };
    let m = Move { orig_idx: 7, dest_idx: 1, cost: 300 };
    let s2 = s.apply_move(&m);
    assert_eq!(s2.cost, 340);
    assert_eq!(s2.cells[1], Cell::C);
    assert_eq!(s2.cells[7], Cell::E);
    // the original state is untouched
    assert_eq!(s.cells[7], Cell::C);
}

#[test]
fn hallway_segment_occupancy() {
    let mut cells = vec![Cell::E; 23];
    cells[2] = Cell::A;  // hallway (0, 4)
    let s = state(cells);
    // segment columns 3..=9 contains the blocker at column 4
    assert!(!s.is_hallway_segment_empty(7, 3, 9));
    // the moving cell itself is ignored
    assert!(s.is_hallway_segment_empty(2, 3, 9));
    // segment columns 5..=9 is clear
    assert!(s.is_hallway_segment_empty(7, 5, 9));
}

#[test]
fn cell_at_coord_reads_the_board() {
    let mut cells = vec![Cell::E; 23];
    cells[11] = Cell::D;  // (1, 5)
    let s = state(cells);
    assert_eq!(s.cell_at_coord((1, 5)), Some(Cell::D));
    assert_eq!(s.cell_at_coord((0, 1)), Some(Cell::E));
    assert_eq!(s.cell_at_coord((0, 3)), None);
}

#[test]
fn equal_cells_compares_contents_not_cost() {
    let a = State { cells: vec![Cell::A, Cell::B], cost: 1 };
    let b = State { cells: vec![Cell::A, Cell::B], cost: 99 };
    let c = State { cells: vec![Cell::B, Cell::A], cost: 1 };
    assert!(a.equal_cells_with(&b));
    assert!(!a.equal_cells_with(&c));
}

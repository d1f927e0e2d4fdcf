use tetris::components::{BlockLetter, CellState};
use tetris::grid::{check_lines, Grid, GRID_COLS};

fn fill_row(g: &mut Grid, row: usize) {
    for c in 0..GRID_COLS {
        g.cells[row * GRID_COLS + c] = CellState::Filled(BlockLetter::T);
    }
}

#[test]
fn new_flat_grid_holds_hidden_rows() {
    let g = Grid::new();
    assert_eq!(g.cells.len(), 260);
    assert!(g.cells.iter().all(|c| *c == CellState::Empty));
}

#[test]
fn full_rows_lists_visible_full_rows() {
    let mut g = Grid::new();
    fill_row(&mut g, 1);
    fill_row(&mut g, 4);
    fill_row(&mut g, 22);
    assert_eq!(g.full_rows(), vec![1, 4]);
}

#[test]
fn flat_check_lines_drains_the_full_rows() {
    let mut g = Grid::new();
    fill_row(&mut g, 1);
    fill_row(&mut g, 4);
    g.cells[3 * GRID_COLS] = CellState::Filled(BlockLetter::S);
    g.cells[5 * GRID_COLS] = CellState::Filled(BlockLetter::Z);
    check_lines(&mut g);
    assert_eq!(g.cells.len(), 260);
    // rows 1 and 4 go; old row 3 falls to row 2, old row 5 to row 3
    assert_eq!(g.cells[2 * GRID_COLS], CellState::Filled(BlockLetter::S));
    assert_eq!(g.cells[3 * GRID_COLS], CellState::Filled(BlockLetter::Z));
    assert!(g.full_rows().is_empty());
    assert!(g.cells[240..].iter().all(|c| *c == CellState::Empty));
}

#[test]
fn flat_check_lines_adjacent_full_rows() {
    let mut g = Grid::new();
    fill_row(&mut g, 0);
    fill_row(&mut g, 1);
    g.cells[2 * GRID_COLS + 3] = CellState::Filled(BlockLetter::L);
    check_lines(&mut g);
    assert_eq!(g.cells[3], CellState::Filled(BlockLetter::L));
    assert!(g.full_rows().is_empty());
    assert_eq!(g.cells.len(), 260);
}

#[test]
fn flat_check_lines_clears_a_full_field() {
    let mut g = Grid::new();
    for r in 0..20 {
        fill_row(&mut g, r);
    }
    check_lines(&mut g);
    assert_eq!(g.cells.len(), 260);
    assert!(g.cells.iter().all(|c| *c == CellState::Empty));
}

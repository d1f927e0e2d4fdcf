use tetris::components::{Block, BlockLetter, CellState, Grid, GRID_COLS, GRID_ROWS};
use tetris::systems::{
    check_lines, handle_keyboard_input, lock_fits, tick, visible_cells, CellView, Key, TickOutcome,
};

fn fill_row(g: &mut Grid, row: usize, l: BlockLetter) {
    for c in 0..GRID_COLS {
        g.cells[row][c] = CellState::Filled(l);
    }
}

#[test]
fn space_drops_to_the_floor() {
    let g = Grid::new();
    let mut b = Block::new(BlockLetter::O);
    handle_keyboard_input(&g, &mut b, &vec![Key::Space]);
    assert_eq!(b.position, (0, 3));
}

#[test]
fn space_stops_on_filled_cells() {
    let mut g = Grid::new();
    g.cells[4][4] = CellState::Filled(BlockLetter::I);
    let mut b = Block::new(BlockLetter::O);
    handle_keyboard_input(&g, &mut b, &vec![Key::Space]);
    assert_eq!(b.position, (5, 3));
    // resting: down does nothing
    handle_keyboard_input(&g, &mut b, &vec![Key::ArrowDown]);
    assert_eq!(b.position, (5, 3));
}

#[test]
fn left_stops_at_the_wall() {
    let g = Grid::new();
    let mut b = Block::new(BlockLetter::O);
    handle_keyboard_input(&g, &mut b, &vec![Key::ArrowLeft; 10]);
    assert_eq!(b.position, (20, 0));
    handle_keyboard_input(&g, &mut b, &vec![Key::ArrowRight; 20]);
    assert_eq!(b.position, (20, 8));
}

#[test]
fn keys_apply_in_order_and_others_are_ignored() {
    let g = Grid::new();
    let mut b = Block::new(BlockLetter::T);
    handle_keyboard_input(
        &g,
        &mut b,
        &vec![Key::ArrowDown, Key::Other, Key::ArrowRight, Key::ArrowRight, Key::ArrowLeft],
    );
    assert_eq!(b.position, (19, 4));
}

#[test]
fn up_rotates_the_block() {
    let g = Grid::new();
    let mut b = Block::new(BlockLetter::I);
    handle_keyboard_input(&g, &mut b, &vec![Key::ArrowUp]);
    assert_eq!(b.shape[0], [true, true, true, true]);
    assert_eq!(b.shape[1], [false, false, false, false]);
    handle_keyboard_input(&g, &mut b, &vec![Key::ArrowUp; 3]);
    assert_eq!(b.shape, Block::new(BlockLetter::I).shape);
}

#[test]
fn right_then_left_comes_back() {
    let g = Grid::new();
    let mut b = Block::new(BlockLetter::Z);
    let start = b.position;
    handle_keyboard_input(&g, &mut b, &vec![Key::ArrowRight, Key::ArrowLeft]);
    assert_eq!(b.position, start);
}

#[test]
fn tick_spawns_when_nothing_is_active() {
    let mut g = Grid::new();
    let mut active: Option<Block> = None;
    assert_eq!(tick(&mut g, &mut active), TickOutcome::Spawned);
    let b = active.unwrap();
    assert_eq!(b.position, (20, 3));
    assert_eq!(b.shape, Block::new(b.letter).shape);
    assert!(g.cells.iter().all(|r| r.iter().all(|c| *c == CellState::Empty)));
}

#[test]
fn tick_moves_down_when_free() {
    let mut g = Grid::new();
    let mut active = Some(Block::new(BlockLetter::L));
    assert_eq!(tick(&mut g, &mut active), TickOutcome::MovedDown);
    assert_eq!(active.unwrap().position, (19, 3));
}

#[test]
fn tick_locks_block_on_the_floor() {
    let mut g = Grid::new();
    let mut b = Block::new(BlockLetter::T);
    handle_keyboard_input(&g, &mut b, &vec![Key::Space]);
    let mut active = Some(b);
    assert_eq!(tick(&mut g, &mut active), TickOutcome::Locked { overflow: 0 });
    assert!(active.is_none());
    for (r, c) in [(0, 3), (0, 4), (0, 5), (1, 4)] {
        assert_eq!(g.cells[r][c], CellState::Filled(BlockLetter::T));
    }
    assert_eq!(g.cells[1][3], CellState::Empty);
    assert_eq!(g.cells[0][6], CellState::Empty);
}

#[test]
fn tick_counts_cells_above_the_field() {
    let mut g = Grid::new();
    // a stack up to the top under the spawn point
    for r in 0..GRID_ROWS {
        g.cells[r][3] = CellState::Filled(BlockLetter::I);
    }
    let mut b = Block::new(BlockLetter::I);
    b.position = (19, 3);
    g.cells[19][3] = CellState::Empty;
    let mut active = Some(b);
    assert_eq!(tick(&mut g, &mut active), TickOutcome::Locked { overflow: 3 });
    assert_eq!(g.cells[19][3], CellState::Filled(BlockLetter::I));
}

#[test]
fn lock_fits_checks_the_walls() {
    let b = Block::new(BlockLetter::I);
    assert!(lock_fits(&b));
    let mut out = Block::new(BlockLetter::I);
    out.position = (5, 10);
    assert!(!lock_fits(&out));
    out.position = (30, 10);
    assert!(lock_fits(&out));
}

#[test]
fn check_lines_removes_a_full_row() {
    let mut g = Grid::new();
    fill_row(&mut g, 0, BlockLetter::O);
    g.cells[1][2] = CellState::Filled(BlockLetter::S);
    check_lines(&mut g);
    assert_eq!(g.cells.len(), GRID_ROWS);
    assert_eq!(g.cells[0][2], CellState::Filled(BlockLetter::S));
    assert_eq!(g.cells[0][0], CellState::Empty);
    assert_eq!(g.cells[1][2], CellState::Empty);
    assert!(g.cells[GRID_ROWS - 1].iter().all(|c| *c == CellState::Empty));
}

#[test]
fn check_lines_removes_adjacent_full_rows() {
    let mut g = Grid::new();
    fill_row(&mut g, 2, BlockLetter::O);
    fill_row(&mut g, 3, BlockLetter::J);
    g.cells[4][7] = CellState::Filled(BlockLetter::Z);
    g.cells[1][1] = CellState::Filled(BlockLetter::L);
    check_lines(&mut g);
    assert_eq!(g.cells[1][1], CellState::Filled(BlockLetter::L));
    assert_eq!(g.cells[2][7], CellState::Filled(BlockLetter::Z));
    assert!(g.cells[3].iter().all(|c| *c == CellState::Empty));
    assert_eq!(g.cells.len(), GRID_ROWS);
}

#[test]
fn check_lines_takes_a_run_from_the_lowest_full_row() {
    // full rows 0 and 2: the run of two rows from row 0 goes, so row 1 goes
    // with row 0 and the full row 2 falls to row 0
    let mut g = Grid::new();
    fill_row(&mut g, 0, BlockLetter::O);
    g.cells[1][5] = CellState::Filled(BlockLetter::S);
    fill_row(&mut g, 2, BlockLetter::T);
    check_lines(&mut g);
    assert!(g.cells[0].iter().all(|c| *c == CellState::Filled(BlockLetter::T)));
    assert!(g.cells[1].iter().all(|c| *c == CellState::Empty));
}

#[test]
fn check_lines_without_full_rows_changes_nothing() {
    let mut g = Grid::new();
    g.cells[0][0] = CellState::Filled(BlockLetter::I);
    check_lines(&mut g);
    assert_eq!(g.cells[0][0], CellState::Filled(BlockLetter::I));
    assert_eq!(g.cells.len(), GRID_ROWS);
}

#[test]
fn visible_cells_show_field_and_active_block() {
    let mut g = Grid::new();
    g.cells[0][0] = CellState::Filled(BlockLetter::J);
    let mut b = Block::new(BlockLetter::O);
    b.position = (0, 0);
    let v = visible_cells(&g, &Some(b));
    assert_eq!(v.len(), GRID_ROWS);
    assert_eq!(v[0][0], CellView::Filled(BlockLetter::J));
    assert_eq!(v[0][1], CellView::ActiveBlock(BlockLetter::O));
    assert_eq!(v[1][0], CellView::ActiveBlock(BlockLetter::O));
    assert_eq!(v[1][1], CellView::ActiveBlock(BlockLetter::O));
    assert_eq!(v[2][0], CellView::Background);
    let none = visible_cells(&g, &None);
    assert_eq!(none[0][1], CellView::Background);
    assert_eq!(none[0][0], CellView::Filled(BlockLetter::J));
}

#[test]
fn visible_cells_skip_hidden_rows() {
    let g = Grid::new();
    let b = Block::new(BlockLetter::I);
    let v = visible_cells(&g, &Some(b));
    assert!(v.iter().all(|r| r.iter().all(|c| *c == CellView::Background)));
}

#[test]
fn new_block_overlaps_nothing_even_on_a_full_field() {
    let mut g = Grid::new();
    for r in 0..GRID_ROWS {
        fill_row(&mut g, r, BlockLetter::Z);
    }
    let b = Block::new(BlockLetter::S);
    assert!(b.next_occupancy((0, 0)).iter().all(|&(r, c)| !g.is_occupied(r, c)));
    assert!(lock_fits(&b));
}

#[test]
fn fresh_block_locks_at_the_21st_tick_on_an_empty_field() {
    let mut g = Grid::new();
    let mut active = Some(Block::new(BlockLetter::L));
    let mut ticks = 0;
    loop {
        ticks += 1;
        if let TickOutcome::Locked { overflow } = tick(&mut g, &mut active) {
            assert_eq!(overflow, 0);
            break;
        }
    }
    assert_eq!(ticks, 21);
    assert_eq!(g.cells[0][3], CellState::Filled(BlockLetter::L));
    assert_eq!(g.cells[0][4], CellState::Filled(BlockLetter::L));
    assert_eq!(g.cells[2][3], CellState::Filled(BlockLetter::L));
}

#[test]
fn empty_mask_moves_freely() {
    let g = Grid::new();
    let mut b = Block { shape: [[false; 4]; 4], letter: BlockLetter::O, position: (0, 0) };
    handle_keyboard_input(&g, &mut b, &vec![Key::ArrowLeft, Key::ArrowDown, Key::ArrowUp]);
    assert_eq!(b.position, (-1, -1));
    let mut active = Some(b);
    assert_eq!(tick(&mut Grid::new(), &mut active), TickOutcome::MovedDown);
    assert_eq!(active.unwrap().position, (-2, -1));
}

#[test]
fn up_is_refused_where_the_turned_block_would_hit() {
    let mut g = Grid::new();
    let mut b = Block::new(BlockLetter::I);
    b.position = (0, 8);
    let before = b.shape;
    handle_keyboard_input(&g, &mut b, &vec![Key::ArrowUp]);
    assert_eq!(b.shape, before);
    b.position = (0, 3);
    g.cells[0][5] = CellState::Filled(BlockLetter::O);
    handle_keyboard_input(&g, &mut b, &vec![Key::ArrowUp]);
    assert_eq!(b.shape, before);
    g.cells[0][5] = CellState::Empty;
    handle_keyboard_input(&g, &mut b, &vec![Key::ArrowUp]);
    assert_eq!(b.shape[0], [true, true, true, true]);
}

#[test]
fn check_lines_drops_the_cells_of_adjacent_full_rows() {
    let mut g = Grid::new();
    fill_row(&mut g, 5, BlockLetter::O);
    fill_row(&mut g, 6, BlockLetter::O);
    g.cells[7][0] = CellState::Filled(BlockLetter::T);
    g.cells[2][9] = CellState::Filled(BlockLetter::T);
    let count = |g: &Grid| g.cells.iter().flatten().filter(|c| **c != CellState::Empty).count();
    assert_eq!(count(&g), 22);
    check_lines(&mut g);
    assert_eq!(count(&g), 2);
}

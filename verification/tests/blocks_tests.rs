use tetris::blocks::{leftmost, Block, BlockLetter};
use tetris::components::CellState;
use tetris::grid::{Grid, GRID_COLS};

fn mask(b: &Block) -> Vec<(usize, usize)> {
    let mut v = Vec::new();
    for i in 0..4 {
        for j in 0..4 {
            if b.shape[i][j] {
                v.push((i, j));
            }
        }
    }
    v
}

#[test]
fn new_blocks_sit_in_the_bottom_rows_of_their_box() {
    let l = Block::new(BlockLetter::L);
    assert_eq!(l.position, (15, 0));
    assert_eq!(mask(&l), vec![(1, 0), (2, 0), (3, 0), (3, 1)]);
    assert_eq!(mask(&Block::new(BlockLetter::O)), vec![(2, 0), (2, 1), (3, 0), (3, 1)]);
    assert_eq!(mask(&Block::new(BlockLetter::T)), vec![(2, 0), (2, 1), (2, 2), (3, 1)]);
}

#[test]
fn rotate_is_transpose_then_reverse() {
    let mut b = Block::new(BlockLetter::L);
    let s = b.shape;
    b.rotate();
    for i in 0..4 {
        for j in 0..4 {
            assert_eq!(b.shape[i][j], s[j][3 - i]);
        }
    }
    assert_eq!(mask(&b), vec![(2, 3), (3, 1), (3, 2), (3, 3)]);
    for _ in 0..3 {
        b.rotate();
    }
    assert_eq!(b.shape, s);
}

#[test]
fn clear_row_copies_the_row_above_and_empties_the_top() {
    let mut b = Block::new(BlockLetter::L);
    b.clear_row(1);
    // row 1 takes row 2, row 2 stays, row 3 emptied
    assert_eq!(mask(&b), vec![(1, 0), (2, 0)]);
    let mut t = Block::new(BlockLetter::T);
    t.clear_row(3);
    assert_eq!(mask(&t), vec![(2, 0), (2, 1), (2, 2)]);
    let mut o = Block::new(BlockLetter::O);
    o.clear_row(2);
    assert_eq!(mask(&o), vec![(2, 0), (2, 1)]);
}

#[test]
fn moves_change_the_position() {
    let mut b = Block::new(BlockLetter::I);
    b.move_down();
    assert_eq!(b.position, (14, 0));
    b.move_left();
    assert_eq!(b.position, (14, -1));
    b.move_right();
    b.move_right();
    assert_eq!(b.position, (14, 1));
}

#[test]
fn empty_after_clearing_everything() {
    let mut b = Block::new(BlockLetter::O);
    assert!(!b.empty());
    b.clear_row(3);
    b.clear_row(2);
    assert!(b.empty());
}

#[test]
fn letters_from_indices() {
    assert_eq!(BlockLetter::from_index(0), BlockLetter::I);
    assert_eq!(BlockLetter::from_index(3), BlockLetter::O);
    assert_eq!(BlockLetter::from_index(6), BlockLetter::Z);
    let first = BlockLetter::sample();
    assert!((0..300).any(|_| BlockLetter::sample() != first));
}

#[test]
fn leftmost_checks_the_whole_box() {
    let mut g = Grid::new();
    let mut b = Block::new(BlockLetter::O);
    // a new block stands at column 0: its box touches the wall even where
    // the mask is empty
    assert!(leftmost(&g, &b));
    b.position = (2, 5);
    assert!(!leftmost(&g, &b));
    g.cells[3 * GRID_COLS + 6] = CellState::Filled(tetris::components::BlockLetter::I);
    assert!(leftmost(&g, &b));
    b.position = (-4, -4);
    assert!(!leftmost(&g, &b));
}

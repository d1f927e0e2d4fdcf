use tetris::components::{Block, BlockLetter, CellState, Grid, GRID_COLS, GRID_ROWS};

fn mask(b: &Block) -> Vec<(usize, usize)> {
    let mut v = Vec::new();
    for i in 0..4 {
        for j in 0..4 {
            if b.shape[i][j] {
                v.push((i, j));
            }
        }
    }
    v
}

#[test]
fn new_grid_is_empty() {
    let g = Grid::new();
    assert_eq!(g.cells.len(), GRID_ROWS);
    for row in &g.cells {
        assert_eq!(row.len(), GRID_COLS);
        assert!(row.iter().all(|c| *c == CellState::Empty));
    }
}

#[test]
fn occupied_outside_walls_and_below_floor() {
    let mut g = Grid::new();
    assert!(g.is_occupied(-1, 0));
    assert!(g.is_occupied(0, -1));
    assert!(g.is_occupied(0, 10));
    assert!(!g.is_occupied(0, 0));
    assert!(!g.is_occupied(0, 9));
    assert!(!g.is_occupied(19, 5));
    assert!(!g.is_occupied(20, 5));
    assert!(!g.is_occupied(1000, 5));
    assert!(g.is_occupied(1000, 10));
    g.cells[3][4] = CellState::Filled(BlockLetter::T);
    assert!(g.is_occupied(3, 4));
    assert!(!g.is_occupied(3, 5));
}

#[test]
fn new_block_shapes_and_position() {
    let t = Block::new(BlockLetter::T);
    assert_eq!(t.position, (20, 3));
    assert_eq!(t.letter, BlockLetter::T);
    assert_eq!(mask(&t), vec![(0, 0), (0, 1), (0, 2), (1, 1)]);
    assert_eq!(mask(&Block::new(BlockLetter::I)), vec![(0, 0), (1, 0), (2, 0), (3, 0)]);
    assert_eq!(mask(&Block::new(BlockLetter::L)), vec![(0, 0), (0, 1), (1, 0), (2, 0)]);
    assert_eq!(mask(&Block::new(BlockLetter::J)), vec![(0, 0), (0, 1), (1, 1), (2, 1)]);
    assert_eq!(mask(&Block::new(BlockLetter::O)), vec![(0, 0), (0, 1), (1, 0), (1, 1)]);
    assert_eq!(mask(&Block::new(BlockLetter::S)), vec![(0, 1), (1, 0), (1, 1), (2, 0)]);
    assert_eq!(mask(&Block::new(BlockLetter::Z)), vec![(0, 0), (1, 0), (1, 1), (2, 1)]);
}

#[test]
fn rotate_i_lies_flat() {
    let mut b = Block::new(BlockLetter::I);
    b.rotate();
    assert_eq!(mask(&b), vec![(0, 0), (0, 1), (0, 2), (0, 3)]);
    assert_eq!(b.position, (20, 3));
    b.rotate();
    assert_eq!(mask(&b), vec![(0, 0), (1, 0), (2, 0), (3, 0)]);
}

#[test]
fn rotate_t_slides_to_corner() {
    let mut b = Block::new(BlockLetter::T);
    b.rotate();
    // cell (i, j) comes from (j, 3 - i), then slides down to row 0 and left to column 0
    assert_eq!(mask(&b), vec![(0, 0), (1, 0), (1, 1), (2, 0)]);
}

#[test]
fn four_rotations_give_back_every_kind() {
    for l in [
        BlockLetter::I,
        BlockLetter::L,
        BlockLetter::J,
        BlockLetter::O,
        BlockLetter::T,
        BlockLetter::S,
        BlockLetter::Z,
    ] {
        let b0 = Block::new(l);
        let mut b = Block::new(l);
        for _ in 0..4 {
            b.rotate();
        }
        assert_eq!(b.shape, b0.shape);
        let mut one = Block::new(l);
        one.rotate();
        assert_eq!(mask(&one).len(), 4);
    }
}

#[test]
fn move_delta_steps() {
    let mut b = Block::new(BlockLetter::O);
    b.move_delta((0, 1));
    assert_eq!(b.position, (20, 4));
    b.move_delta((-1, 0));
    assert_eq!(b.position, (19, 4));
    b.move_delta((0, -1));
    assert_eq!(b.position, (19, 3));
}

#[test]
fn next_occupancy_lists_cells_in_mask_order() {
    let b = Block::new(BlockLetter::O);
    assert_eq!(b.next_occupancy((-1, 0)), vec![(19, 3), (19, 4), (20, 3), (20, 4)]);
    let t = Block::new(BlockLetter::T);
    assert_eq!(t.next_occupancy((0, 1)), vec![(20, 4), (20, 5), (20, 6), (21, 5)]);
}

#[test]
fn from_index_maps_in_order() {
    assert_eq!(BlockLetter::from_index(0), BlockLetter::I);
    assert_eq!(BlockLetter::from_index(1), BlockLetter::L);
    assert_eq!(BlockLetter::from_index(2), BlockLetter::J);
    assert_eq!(BlockLetter::from_index(3), BlockLetter::O);
    assert_eq!(BlockLetter::from_index(4), BlockLetter::T);
    assert_eq!(BlockLetter::from_index(5), BlockLetter::S);
    assert_eq!(BlockLetter::from_index(6), BlockLetter::Z);
    assert_eq!(BlockLetter::from_index(99), BlockLetter::Z);
}

#[test]
fn sample_draws_more_than_one_kind() {
    let first = BlockLetter::sample();
    let mut other = false;
    for _ in 0..300 {
        if BlockLetter::sample() != first {
            other = true;
        }
    }
    assert!(other);
}

#[test]
fn within_reach_and_empty() {
    let b = Block::new(BlockLetter::S);
    assert!(b.within_reach(0));
    assert!(b.within_reach(1000));
    assert!(!b.empty());
    let empty = Block { shape: [[false; 4]; 4], letter: BlockLetter::S, position: (0, 0) };
    assert!(empty.empty());
    let far = Block { shape: b.shape, letter: BlockLetter::S, position: (isize::MAX, 0) };
    assert!(!far.within_reach(0));
    let edge = Block { shape: b.shape, letter: BlockLetter::S, position: (isize::MAX - 4, 0) };
    assert!(edge.within_reach(0));
    assert!(!edge.within_reach(1));
    assert!(!b.within_reach(usize::MAX));
}

#[test]
fn every_kind_has_four_cells_and_its_own_mask() {
    let all = [
        BlockLetter::I,
        BlockLetter::L,
        BlockLetter::J,
        BlockLetter::O,
        BlockLetter::T,
        BlockLetter::S,
        BlockLetter::Z,
    ];
    for a in all {
        assert_eq!(mask(&Block::new(a)).len(), 4);
        for b in all {
            if a != b {
                assert_ne!(Block::new(a).shape, Block::new(b).shape);
            }
        }
    }
}

#[test]
fn rotation_keeps_four_cells() {
    let mut b = Block::new(BlockLetter::J);
    for _ in 0..5 {
        b.rotate();
        assert_eq!(mask(&b).len(), 4);
    }
}

#[test]
fn next_occupancy_is_sorted_and_shifts() {
    let b = Block::new(BlockLetter::Z);
    let here = b.next_occupancy((0, 0));
    let left = b.next_occupancy((0, -1));
    assert_eq!(here.len(), 4);
    for k in 1..here.len() {
        assert!(here[k - 1] < here[k]);
    }
    for k in 0..here.len() {
        assert_eq!(left[k], (here[k].0, here[k].1 - 1));
    }
}

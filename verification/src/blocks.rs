use vstd::prelude::*;
use crate::chance::random_below;
use crate::components::{CellState, in_corner, rotated_shape};
use crate::grid::{cell_count, Grid, GRID_COLS, GRID_ROWS};

verus! {

/// The seven tetromino kinds.
#[derive(Clone, Copy, Debug, PartialEq, Eq, Structural)]
pub enum BlockLetter {
    I,
    L,
    J,
    O,
    T,
    S,
    Z,
}

/// The kind that index `i` (below 7) of a uniform draw stands for.
pub open spec fn letter_of_index(i: u32) -> BlockLetter {
    if i == 0 {
        BlockLetter::I
    } else if i == 1 {
        BlockLetter::L
    } else if i == 2 {
        BlockLetter::J
    } else if i == 3 {
        BlockLetter::O
    } else if i == 4 {
        BlockLetter::T
    } else if i == 5 {
        BlockLetter::S
    } else {
        BlockLetter::Z
    }
}

impl BlockLetter {
    /// The kind for a drawn index below 7, in declaration order.
    pub fn from_index(i: u32) -> (l: BlockLetter)
        requires
            i < 7,
        ensures
            l == letter_of_index(i),
    {
        match i {
            0 => BlockLetter::I,
            1 => BlockLetter::L,
            2 => BlockLetter::J,
            3 => BlockLetter::O,
            4 => BlockLetter::T,
            5 => BlockLetter::S,
            _ => BlockLetter::Z,
        }
    }

    /// A kind drawn uniformly at random.
    pub fn sample() -> (l: BlockLetter)
        ensures
            exists|i: u32| i < 7 && l == letter_of_index(i),
    {
        let i = random_below(7);
        Self::from_index(i)
    }
}

/// A block as a 4x4 mask (`shape[row][col]`), its (row, column) position
/// (the row may go below zero) and its kind.
pub struct Block {
    pub shape: [[bool; 4]; 4],
    pub position: (isize, isize),
    pub letter: BlockLetter,
}

/// The mask of each kind as the block is created.
pub open spec fn letter_shape(letter: BlockLetter, i: int, j: int) -> bool {
    match letter {
        BlockLetter::I => j == 0,
        BlockLetter::L => (j == 0 && 1 <= i <= 3) || (i == 3 && j == 1),
        BlockLetter::J => (j == 1 && 1 <= i <= 3) || (i == 3 && j == 0),
        BlockLetter::O => (i == 2 || i == 3) && (j == 0 || j == 1),
        BlockLetter::T => (i == 2 && j <= 2) || (i == 3 && j == 1),
        BlockLetter::S => (i == 1 && j == 0) || (i == 2 && j <= 1) || (i == 3 && j == 1),
        BlockLetter::Z => (i == 1 && j == 1) || (i == 2 && j <= 1) || (i == 3 && j == 0),
    }
}

/// The mask turned by a quarter: row `i` of the result is column `3 - i`
/// of `s`, read from row 0 up.
pub open spec fn quarter_turn(s: [[bool; 4]; 4]) -> [[bool; 4]; 4] {
    [
        [s[0][3], s[1][3], s[2][3], s[3][3]],
        [s[0][2], s[1][2], s[2][2], s[3][2]],
        [s[0][1], s[1][1], s[2][1], s[3][1]],
        [s[0][0], s[1][0], s[2][0], s[3][0]],
    ]
}

/// The mask after `clear_row(row)`: row `row` takes the content of the row
/// above it (row 3 is emptied instead), the top row is emptied, and the
/// other rows stay.
pub open spec fn shape_after_clear(s: [[bool; 4]; 4], row: int) -> [[bool; 4]; 4] {
    let none = [false, false, false, false];
    let pick = |r: int|
        if r == 3 {
            none
        } else if r == row {
            s[r + 1]
        } else {
            s[r]
        };
    [pick(0), pick(1), pick(2), pick(3)]
}

impl Block {
    /// Whether the mask holds cell (`i`, `j`).
    pub open spec fn filled(&self, i: int, j: int) -> bool {
        0 <= i < 4 && 0 <= j < 4 && self.shape[i][j]
    }

    /// A block is created with the mask of its kind at position
    /// (`GRID_ROWS - 5`, 0): row 15, column 0.
    pub fn new(block_letter: BlockLetter) -> (b: Self)
        ensures
            b.letter == block_letter,
            b.position == ((GRID_ROWS - 5) as isize, 0isize),
            forall|i: int, j: int|
                0 <= i < 4 && 0 <= j < 4 ==> #[trigger] b.shape[i][j] == letter_shape(
                    block_letter,
                    i,
                    j,
                ),
    {
        let shape = match block_letter {
            BlockLetter::I => [
                [true, false, false, false],
                [true, false, false, false],
                [true, false, false, false],
                [true, false, false, false],
            ],
            BlockLetter::L => [
                [false, false, false, false],
                [true, false, false, false],
                [true, false, false, false],
                [true, true, false, false],
            ],
            BlockLetter::J => [
                [false, false, false, false],
                [false, true, false, false],
                [false, true, false, false],
                [true, true, false, false],
            ],
            BlockLetter::O => [
                [false, false, false, false],
                [false, false, false, false],
                [true, true, false, false],
                [true, true, false, false],
            ],
            BlockLetter::T => [
                [false, false, false, false],
                [false, false, false, false],
                [true, true, true, false],
                [false, true, false, false],
            ],
            BlockLetter::S => [
                [false, false, false, false],
                [true, false, false, false],
                [true, true, false, false],
                [false, true, false, false],
            ],
            BlockLetter::Z => [
                [false, false, false, false],
                [false, true, false, false],
                [true, true, false, false],
                [true, false, false, false],
            ],
        };
        let position = (GRID_ROWS as isize - 5, 0);
        Self { shape, position, letter: block_letter }
    }

    /// Turns the mask by a quarter: transposes it, then reverses the order
    /// of its rows.
    pub fn rotate(&mut self)
        ensures
            final(self).shape == quarter_turn(old(self).shape),
            final(self).position == old(self).position,
            final(self).letter == old(self).letter,
    {
        let ghost s = self.shape;
        let mut i: usize = 0;
        while i < 4
            invariant
                self.position == old(self).position,
                self.letter == old(self).letter,
                i <= 4,
                forall|a: int, b: int|
                    0 <= a < 4 && 0 <= b < 4 ==> #[trigger] self.shape[a][b] == if a < i || b < i {
                        s[b][a]
                    } else {
                        s[a][b]
                    },
            decreases 4 - i,
        {
            let mut j: usize = i + 1;
            while j < 4
                invariant
                    self.position == old(self).position,
                    self.letter == old(self).letter,
                    i < 4,
                    i < j <= 4,
                    forall|a: int, b: int|
                        0 <= a < 4 && 0 <= b < 4 ==> #[trigger] self.shape[a][b] == if a < i || b
                            < i || (a == i && i < b < j) || (b == i && i < a < j) {
                            s[b][a]
                        } else {
                            s[a][b]
                        },
                decreases 4 - j,
            {
                let tmp = self.shape[i][j];
                self.shape[i][j] = self.shape[j][i];
                self.shape[j][i] = tmp;
                j = j + 1;
            }
            i = i + 1;
        }
        let mut k: usize = 0;
        while k < 2
            invariant
                self.position == old(self).position,
                self.letter == old(self).letter,
                k <= 2,
                forall|a: int, b: int|
                    0 <= a < 4 && 0 <= b < 4 ==> #[trigger] self.shape[a][b] == if a < k || 3 - a
                        < k {
                        s[b][3 - a]
                    } else {
                        s[b][a]
                    },
            decreases 2 - k,
        {
            let tmp = self.shape[k];
            self.shape[k] = self.shape[3 - k];
            self.shape[3 - k] = tmp;
            k = k + 1;
        }
        assert(self.shape[0] =~= quarter_turn(s)[0]);
        assert(self.shape[1] =~= quarter_turn(s)[1]);
        assert(self.shape[2] =~= quarter_turn(s)[2]);
        assert(self.shape[3] =~= quarter_turn(s)[3]);
        assert(self.shape =~= quarter_turn(s));
    }

    /// Empties mask row `row`, copies the row above into it, and empties
    /// the top row.
    pub fn clear_row(&mut self, row: usize)
        requires
            row < 4,
        ensures
            final(self).shape == shape_after_clear(old(self).shape, row as int),
            final(self).position == old(self).position,
            final(self).letter == old(self).letter,
    {
        let ghost s = self.shape;
        let mut col: usize = 0;
        while col < 4
            invariant
                self.position == old(self).position,
                self.letter == old(self).letter,
                row < 4,
                col <= 4,
                forall|a: int| 0 <= a < 4 && a != row ==> #[trigger] self.shape[a] == s[a],
                forall|b: int| 0 <= b < 4 ==> #[trigger] self.shape[row as int][b] == if b < col {
                    false
                } else {
                    s[row as int][b]
                },
            decreases 4 - col,
        {
            self.shape[row][col] = false;
            col = col + 1;
        }
        let mut i: usize = row;
        while i < 3
            invariant
                self.position == old(self).position,
                self.letter == old(self).letter,
                row < 4,
                row <= i <= 3,
                forall|a: int| 0 <= a < 4 && a != row ==> #[trigger] self.shape[a] == s[a],
                row < i ==> self.shape[row as int] == s[row + 1],
            decreases 3 - i,
        {
            self.shape[row] = self.shape[row + 1];
            i = i + 1;
        }
        self.shape[3] = [false, false, false, false];
        let ghost t = shape_after_clear(s, row as int);
        assert(self.shape[0] =~= t[0]);
        assert(self.shape[1] =~= t[1]);
        assert(self.shape[2] =~= t[2]);
        assert(self.shape[3] =~= t[3]);
        assert(self.shape =~= t);
    }

    /// One row down.
    pub fn move_down(&mut self)
        requires
            old(self).position.0 > isize::MIN,
        ensures
            final(self).position.0 == old(self).position.0 - 1,
            final(self).position.1 == old(self).position.1,
            final(self).shape == old(self).shape,
            final(self).letter == old(self).letter,
    {
        self.position.0 = self.position.0 - 1;
    }

    /// One column left.
    pub fn move_left(&mut self)
        requires
            old(self).position.1 > isize::MIN,
        ensures
            final(self).position.0 == old(self).position.0,
            final(self).position.1 == old(self).position.1 - 1,
            final(self).shape == old(self).shape,
            final(self).letter == old(self).letter,
    {
        self.position.1 = self.position.1 - 1;
    }

    /// One column right.
    pub fn move_right(&mut self)
        requires
            old(self).position.1 < isize::MAX,
        ensures
            final(self).position.0 == old(self).position.0,
            final(self).position.1 == old(self).position.1 + 1,
            final(self).shape == old(self).shape,
            final(self).letter == old(self).letter,
    {
        self.position.1 = self.position.1 + 1;
    }

    /// Whether the mask holds no cell at all.
    pub fn empty(&self) -> (e: bool)
        ensures
            e == !exists|i: int, j: int| #[trigger] self.filled(i, j),
    {
        let mut i: usize = 0;
        while i < 4
            invariant
                i <= 4,
                forall|a: int, b: int| 0 <= a < i && 0 <= b < 4 ==> !#[trigger] self.shape[a][b],
            decreases 4 - i,
        {
            let mut j: usize = 0;
            while j < 4
                invariant
                    i < 4,
                    j <= 4,
                    forall|a: int, b: int| 0 <= a < i && 0 <= b < 4 ==> !#[trigger] self.shape[a][b],
                    forall|b: int| 0 <= b < j ==> !#[trigger] self.shape[i as int][b],
                decreases 4 - j,
            {
                if self.shape[i][j] {
                    assert(self.filled(i as int, j as int));
                    return false;
                }
                j = j + 1;
            }
            i = i + 1;
        }
        true
    }
}

/// Box cell (`i`, `j`) of `block`, when it lies at a row and a column of at
/// least 0, stands at the left wall or next to a filled cell on its left in
/// the flat field. The mask is not consulted.
pub open spec fn touches_left(grid: Grid, block: Block, i: int, j: int) -> bool {
    let row = block.position.0 + i;
    let col = block.position.1 + j;
    &&& row >= 0
    &&& col >= 0
    &&& (col == 0 || grid.cells@[left_index(block, i, j)] != CellState::Empty)
}

/// Every cell left of a box cell that lies at a row of at least 0 and a
/// column of at least 1 is inside the flat field.
pub open spec fn left_reads_fit(block: Block) -> bool {
    forall|i: int, j: int|
        0 <= i < 4 && 0 <= j < 4 && block.position.0 + i >= 0 && block.position.1 + j >= 1
            ==> #[trigger] left_index(block, i, j) < cell_count()
}

/// The flat index of the cell left of box cell (`i`, `j`).
pub open spec fn left_index(block: Block, i: int, j: int) -> int {
    (block.position.0 + i) * GRID_COLS + block.position.1 + j - 1
}

/// Whether some cell of the block's 4x4 box (filled or not), at a row and a
/// column of at least 0, stands at the left wall or has a filled cell on its
/// left.
pub fn leftmost(grid: &Grid, block: &Block) -> (hit: bool)
    requires
        grid.wf(),
        block.position.0 + 3 <= isize::MAX,
        block.position.1 + 3 <= isize::MAX,
        left_reads_fit(*block),
    ensures
        hit == exists|i: int, j: int|
            0 <= i < 4 && 0 <= j < 4 && #[trigger] touches_left(*grid, *block, i, j),
{
    let (x, y) = block.position;
    let mut i: usize = 0;
    while i < 4
        invariant
            i <= 4,
            (x, y) == block.position,
            grid.wf(),
            block.position.0 + 3 <= isize::MAX,
            block.position.1 + 3 <= isize::MAX,
            left_reads_fit(*block),
            forall|a: int, b: int| 0 <= a < i && 0 <= b < 4 ==> !#[trigger] touches_left(*grid, *block, a, b),
        decreases 4 - i,
    {
        let mut j: usize = 0;
        while j < 4
            invariant
                i < 4,
                j <= 4,
                (x, y) == block.position,
                grid.wf(),
                block.position.0 + 3 <= isize::MAX,
                block.position.1 + 3 <= isize::MAX,
                left_reads_fit(*block),
                forall|a: int, b: int| 0 <= a < i && 0 <= b < 4 ==> !#[trigger] touches_left(*grid, *block, a, b),
                forall|b: int| 0 <= b < j ==> !#[trigger] touches_left(*grid, *block, i as int, b),
            decreases 4 - j,
        {
            let row = x + i as isize;
            let col = y + j as isize;
            if row >= 0 && col >= 0 {
                if col == 0 {
                    assert(touches_left(*grid, *block, i as int, j as int));
                    return true;
                }
                assert(left_index(*block, i as int, j as int) < cell_count());
                let index = row as usize * GRID_COLS + col as usize - 1;
                match grid.cells[index] {
                    CellState::Empty => {},
                    CellState::Filled(_) => {
                        assert(touches_left(*grid, *block, i as int, j as int));
                        return true;
                    },
                }
            }
            j = j + 1;
        }
        i = i + 1;
    }
    false
}

/// Four quarter turns give back the mask.
pub proof fn four_quarter_turns_restore(s: [[bool; 4]; 4])
    ensures
        quarter_turn(quarter_turn(quarter_turn(quarter_turn(s)))) == s,
{
    let r = quarter_turn(quarter_turn(quarter_turn(quarter_turn(s))));
    assert(r[0] =~= s[0]);
    assert(r[1] =~= s[1]);
    assert(r[2] =~= s[2]);
    assert(r[3] =~= s[3]);
    assert(r =~= s);
}

/// `t` is `s` given a quarter turn (cell (`i`, `j`) of the turn is cell
/// (`j`, `3 - i`) of `s`, as [`quarter_turn`] makes it) and then slid down by
/// `b` rows and left by `l` columns.
pub open spec fn slid_quarter_turn(s: [[bool; 4]; 4], t: [[bool; 4]; 4], b: int, l: int) -> bool {
    forall|i: int, j: int|
        0 <= i < 4 && 0 <= j < 4 ==> #[trigger] t[i][j] == (i + b < 4 && j + l < 4 && quarter_turn(
            s,
        )[i + b][j + l] && s[j + l][3 - (i + b)])
}

/// A rotation of the playing model is a true quarter turn with no mirror:
/// the mask is turned as this model's `rotate` turns it (cell (`i`, `j`) of
/// the turned mask is cell (`j`, `3 - i`) of the old one) and then slid, as
/// a whole, down by `b` rows and left by `l` columns; a non-empty mask ends
/// touching the bottom-left corner.
pub proof fn rotation_is_a_quarter_turn(s: [[bool; 4]; 4])
    ensures
        exists|b: int, l: int|
            0 <= b < 4 && 0 <= l < 4 && #[trigger] slid_quarter_turn(s, rotated_shape(s), b, l),
        (exists|i: int, j: int| 0 <= i < 4 && 0 <= j < 4 && #[trigger] s[i][j]) ==> in_corner(
            rotated_shape(s),
        ),
{
    let b = crate::components::turned_bottom(s);
    let l = crate::components::turned_left(s);
    assert forall|i: int, j: int| 0 <= i < 4 && 0 <= j < 4 implies #[trigger] rotated_shape(s)[i][j]
        == (i + b < 4 && j + l < 4 && quarter_turn(s)[i + b][j + l] && s[j + l][3 - (i + b)]) by {
        assert(rotated_shape(s)[i][j] == crate::components::rotated_cell(s, i, j));
        if i + b < 4 && j + l < 4 {
            assert(quarter_turn(s)[i + b][j + l] == s[j + l][3 - (i + b)]);
        }
    }
    assert(slid_quarter_turn(s, rotated_shape(s), b, l));
    if exists|i: int, j: int| 0 <= i < 4 && 0 <= j < 4 && #[trigger] s[i][j] {
        crate::components::rotation_lands_in_corner(s);
    }
}

/// The two pairs of mirror kinds: J's starting mask is L's mirrored across
/// its first two columns, and Z's is S's; none of the four reaches past the
/// second column.
pub proof fn mirror_kinds(i: int, j: int)
    requires
        0 <= i < 4,
        0 <= j < 4,
    ensures
        j < 2 ==> letter_shape(BlockLetter::J, i, j) == letter_shape(BlockLetter::L, i, 1 - j),
        j < 2 ==> letter_shape(BlockLetter::Z, i, j) == letter_shape(BlockLetter::S, i, 1 - j),
        j >= 2 ==> !letter_shape(BlockLetter::J, i, j) && !letter_shape(BlockLetter::L, i, j)
            && !letter_shape(BlockLetter::S, i, j) && !letter_shape(BlockLetter::Z, i, j),
{
}

/// Different kinds start with different masks.
pub proof fn kinds_have_distinct_masks(l1: BlockLetter, l2: BlockLetter)
    requires
        l1 != l2,
    ensures
        exists|i: int, j: int|
            0 <= i < 4 && 0 <= j < 4 && #[trigger] letter_shape(l1, i, j) != letter_shape(l2, i, j),
{
    // Cells (0, 0), (1, 0), (1, 1), (2, 1), (2, 2), (3, 0) and (3, 1) tell
    // the seven kinds apart.
    assert(letter_shape(l1, 0, 0) != letter_shape(l2, 0, 0) || letter_shape(l1, 1, 0)
        != letter_shape(l2, 1, 0) || letter_shape(l1, 1, 1) != letter_shape(l2, 1, 1)
        || letter_shape(l1, 2, 1) != letter_shape(l2, 2, 1) || letter_shape(l1, 2, 2)
        != letter_shape(l2, 2, 2) || letter_shape(l1, 3, 0) != letter_shape(l2, 3, 0)
        || letter_shape(l1, 3, 1) != letter_shape(l2, 3, 1));
}

} // verus!

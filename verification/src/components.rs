use vstd::prelude::*;
use crate::chance::random_below;

verus! {

/// Number of columns of the playing field.
pub const GRID_COLS: usize = 10;

/// Number of visible rows of the playing field.
pub const GRID_ROWS: usize = 20;

/// Rows above the visible field in which a block may still sit.
pub const GRID_HIDDEN_ROWS: usize = 6;

/// The seven tetromino kinds.
#[derive(Clone, Copy, Debug, PartialEq, Eq, Structural)]
pub enum BlockLetter {
    I,
    L,
    J,
    O,
    T,
    S,
    Z,
}

/// What a cell of the field holds. A filled cell remembers the kind of
/// block that filled it, which is what decides its colour.
#[derive(Clone, Copy, Debug, PartialEq, Eq, Structural)]
pub enum CellState {
    Empty,
    Filled(BlockLetter),
}

/// The playing field: `cells[row][col]`, row 0 at the bottom.
pub struct Grid {
    pub cells: Vec<Vec<CellState>>,
}

impl Grid {
    /// The field has `GRID_ROWS` rows of `GRID_COLS` cells each.
    pub open spec fn wf(&self) -> bool {
        &&& self.cells@.len() == GRID_ROWS
        &&& forall|r: int| 0 <= r < GRID_ROWS ==> #[trigger] self.cells@[r]@.len() == GRID_COLS
    }

    /// The field as rows of cells.
    pub open spec fn rows(&self) -> Seq<Seq<CellState>> {
        self.cells@.map_values(|r: Vec<CellState>| r@)
    }

    /// The content of cell (`row`, `col`).
    pub open spec fn cell(&self, row: int, col: int) -> CellState {
        self.cells@[row]@[col]
    }

    /// A cell counts as occupied when it lies below the floor, left or right
    /// of the walls, or inside the visible field and filled. Cells above the
    /// visible field are free.
    pub open spec fn occupied(&self, row: int, col: int) -> bool {
        ||| row < 0
        ||| col < 0
        ||| col >= GRID_COLS
        ||| (row < GRID_ROWS && self.cell(row, col) != CellState::Empty)
    }

    /// An empty field.
    pub fn new() -> (g: Self)
        ensures
            g.wf(),
            forall|r: int, c: int|
                0 <= r < GRID_ROWS && 0 <= c < GRID_COLS ==> #[trigger] g.cell(r, c)
                    == CellState::Empty,
    {
        let mut cells: Vec<Vec<CellState>> = Vec::new();
        let mut r: usize = 0;
        while r < GRID_ROWS
            invariant
                r <= GRID_ROWS,
                cells@.len() == r,
                forall|k: int| 0 <= k < r ==> #[trigger] cells@[k]@.len() == GRID_COLS,
                forall|k: int, c: int|
                    0 <= k < r && 0 <= c < GRID_COLS ==> #[trigger] cells@[k]@[c]
                        == CellState::Empty,
            decreases GRID_ROWS - r,
        {
            let mut row: Vec<CellState> = Vec::new();
            let mut c: usize = 0;
            while c < GRID_COLS
                invariant
                    c <= GRID_COLS,
                    row@.len() == c,
                    forall|k: int| 0 <= k < c ==> #[trigger] row@[k] == CellState::Empty,
                decreases GRID_COLS - c,
            {
                row.push(CellState::Empty);
                c = c + 1;
            }
            cells.push(row);
            r = r + 1;
        }
        Grid { cells }
    }

    /// Whether cell (`row`, `col`) is occupied, see [`Grid::occupied`].
    pub fn is_occupied(&self, row: isize, col: isize) -> (b: bool)
        requires
            self.wf(),
        ensures
            b == self.occupied(row as int, col as int),
    {
        if row < 0 || col < 0 || col >= GRID_COLS as isize {
            return true;
        }
        if row < GRID_ROWS as isize {
            match self.cells[row as usize][col as usize] {
                CellState::Empty => false,
                CellState::Filled(_) => true,
            }
        } else {
            false
        }
    }
}


/// A falling block: a 4x4 mask (`shape[i][j]`, row offset `i` upwards,
/// column offset `j` rightwards), its kind, and the (row, column) of the
/// mask's bottom-left corner on the field.
#[derive(Clone, Copy, Debug)]
pub struct Block {
    pub shape: [[bool; 4]; 4],
    pub letter: BlockLetter,
    pub position: (isize, isize),
}

/// The mask of each kind as it appears when the block is created.
pub open spec fn letter_shape(letter: BlockLetter, i: int, j: int) -> bool {
    match letter {
        BlockLetter::I => j == 0,
        BlockLetter::L => (i == 0 && j == 0) || (i == 0 && j == 1) || (i == 1 && j == 0) || (i == 2
            && j == 0),
        BlockLetter::J => (i == 0 && j == 0) || (i == 0 && j == 1) || (i == 1 && j == 1) || (i == 2
            && j == 1),
        BlockLetter::O => (i == 0 || i == 1) && (j == 0 || j == 1),
        BlockLetter::T => (i == 0 && j <= 2) || (i == 1 && j == 1),
        BlockLetter::S => (i == 0 && j == 1) || (i == 1 && j == 0) || (i == 1 && j == 1) || (i == 2
            && j == 0),
        BlockLetter::Z => (i == 0 && j == 0) || (i == 1 && j == 0) || (i == 1 && j == 1) || (i == 2
            && j == 1),
    }
}

/// Where a new block appears: just above the visible field, its mask
/// starting two columns left of the middle.
pub open spec fn spawn_position() -> (isize, isize) {
    (GRID_ROWS as isize, (GRID_COLS / 2 - 2) as isize)
}

/// The mask turned by a quarter: cell (`i`, `j`) of the result is cell
/// (`j`, `3 - i`) of `s`.
pub open spec fn turned(s: [[bool; 4]; 4], i: int, j: int) -> bool {
    s[j][3 - i]
}

/// Column `c` of the turned mask holds a cell.
pub open spec fn turned_col_has(s: [[bool; 4]; 4], c: int) -> bool {
    turned(s, 0, c) || turned(s, 1, c) || turned(s, 2, c) || turned(s, 3, c)
}

/// Row `r` of the turned mask holds a cell.
pub open spec fn turned_row_has(s: [[bool; 4]; 4], r: int) -> bool {
    turned(s, r, 0) || turned(s, r, 1) || turned(s, r, 2) || turned(s, r, 3)
}

/// The leftmost column of the turned mask that holds a cell (3 when none does).
pub open spec fn turned_left(s: [[bool; 4]; 4]) -> int {
    if turned_col_has(s, 0) {
        0
    } else if turned_col_has(s, 1) {
        1
    } else if turned_col_has(s, 2) {
        2
    } else {
        3
    }
}

/// The lowest row of the turned mask that holds a cell (3 when none does).
pub open spec fn turned_bottom(s: [[bool; 4]; 4]) -> int {
    if turned_row_has(s, 0) {
        0
    } else if turned_row_has(s, 1) {
        1
    } else if turned_row_has(s, 2) {
        2
    } else {
        3
    }
}

/// Cell (`i`, `j`) of the mask after a rotation: the mask turned by a
/// quarter, then slid down and left so that its lowest row and its
/// leftmost column touch the corner.
pub open spec fn rotated_cell(s: [[bool; 4]; 4], i: int, j: int) -> bool {
    let b = turned_bottom(s);
    let l = turned_left(s);
    i + b < 4 && j + l < 4 && turned(s, i + b, j + l)
}

/// The mask after a rotation, see [`rotated_cell`].
pub open spec fn rotated_shape(s: [[bool; 4]; 4]) -> [[bool; 4]; 4] {
    [
        [rotated_cell(s, 0, 0), rotated_cell(s, 0, 1), rotated_cell(s, 0, 2), rotated_cell(s, 0, 3)],
        [rotated_cell(s, 1, 0), rotated_cell(s, 1, 1), rotated_cell(s, 1, 2), rotated_cell(s, 1, 3)],
        [rotated_cell(s, 2, 0), rotated_cell(s, 2, 1), rotated_cell(s, 2, 2), rotated_cell(s, 2, 3)],
        [rotated_cell(s, 3, 0), rotated_cell(s, 3, 1), rotated_cell(s, 3, 2), rotated_cell(s, 3, 3)],
    ]
}

/// The three moves a block can make: right, down, left.
pub open spec fn legal_delta(delta: (isize, isize)) -> bool {
    delta == (0isize, 1isize) || delta == (-1isize, 0isize) || delta == (0isize, -1isize)
}

/// The kind that index `i` of a uniform draw from `0..7` stands for.
pub open spec fn letter_of_index(i: u32) -> BlockLetter {
    if i == 0 {
        BlockLetter::I
    } else if i == 1 {
        BlockLetter::L
    } else if i == 2 {
        BlockLetter::J
    } else if i == 3 {
        BlockLetter::O
    } else if i == 4 {
        BlockLetter::T
    } else if i == 5 {
        BlockLetter::S
    } else {
        BlockLetter::Z
    }
}

impl BlockLetter {
    /// The kind for a drawn index: 0 to 5 in declaration order, anything
    /// else `Z`.
    pub fn from_index(i: u32) -> (l: BlockLetter)
        ensures
            l == letter_of_index(i),
    {
        match i {
            0 => BlockLetter::I,
            1 => BlockLetter::L,
            2 => BlockLetter::J,
            3 => BlockLetter::O,
            4 => BlockLetter::T,
            5 => BlockLetter::S,
            _ => BlockLetter::Z,
        }
    }

    /// A kind drawn uniformly at random.
    pub fn sample() -> (l: BlockLetter)
        ensures
            exists|i: u32| i < 7 && l == letter_of_index(i),
    {
        let i = random_below(7);
        Self::from_index(i)
    }
}

impl Block {
    /// The mask holds at least one cell.
    pub open spec fn has_cell(&self) -> bool {
        exists|i: int, j: int| #[trigger] self.filled(i, j)
    }

    /// The position is at least `n` steps, plus a margin of four, away from
    /// both ends of `isize` in each coordinate, so that `n` one-step moves and
    /// the cells of the mask can all be computed.
    pub open spec fn within(&self, n: int) -> bool {
        &&& isize::MIN + 4 + n <= self.position.0 <= isize::MAX - 4 - n
        &&& isize::MIN + 4 + n <= self.position.1 <= isize::MAX - 4 - n
    }

    /// A block in play: its mask is not empty and its position is far
    /// enough from the ends of `isize` that every cell and every one-step
    /// move of it can be computed.
    pub open spec fn wf(&self) -> bool {
        &&& self.has_cell()
        &&& self.within(0)
    }

    /// Whether the position leaves room for `steps` moves, see
    /// [`Block::within`].
    pub fn within_reach(&self, steps: usize) -> (ok: bool)
        ensures
            ok == self.within(steps as int),
    {
        if steps > (isize::MAX - 4) as usize {
            return false;
        }
        let n = steps as isize;
        let (row, col) = self.position;
        isize::MIN + 4 + n <= row && row <= isize::MAX - 4 - n && isize::MIN + 4 + n <= col && col
            <= isize::MAX - 4 - n
    }

    /// Whether the mask holds no cell at all.
    pub fn empty(&self) -> (e: bool)
        ensures
            e == !self.has_cell(),
    {
        let mut i: usize = 0;
        while i < 4
            invariant
                i <= 4,
                forall|a: int, b: int| 0 <= a < i && 0 <= b < 4 ==> !#[trigger] self.shape[a][b],
            decreases 4 - i,
        {
            let mut j: usize = 0;
            while j < 4
                invariant
                    i < 4,
                    j <= 4,
                    forall|a: int, b: int| 0 <= a < i && 0 <= b < 4 ==> !#[trigger] self.shape[a][b],
                    forall|b: int| 0 <= b < j ==> !#[trigger] self.shape[i as int][b],
                decreases 4 - j,
            {
                if self.shape[i][j] {
                    assert(self.filled(i as int, j as int));
                    return false;
                }
                j = j + 1;
            }
            i = i + 1;
        }
        true
    }

    /// Whether the mask holds cell (`i`, `j`).
    pub open spec fn filled(&self, i: int, j: int) -> bool {
        0 <= i < 4 && 0 <= j < 4 && self.shape[i][j]
    }

    /// A block is created with the mask of its kind at the spawn position.
    pub fn new(block_letter: BlockLetter) -> (b: Self)
        ensures
            b.wf(),
            b.letter == block_letter,
            b.position == spawn_position(),
            forall|i: int, j: int|
                0 <= i < 4 && 0 <= j < 4 ==> #[trigger] b.shape[i][j] == letter_shape(
                    block_letter,
                    i,
                    j,
                ),
    {
        let shape = match block_letter {
            BlockLetter::I => [
                [true, false, false, false],
                [true, false, false, false],
                [true, false, false, false],
                [true, false, false, false],
            ],
            BlockLetter::L => [
                [true, true, false, false],
                [true, false, false, false],
                [true, false, false, false],
                [false, false, false, false],
            ],
            BlockLetter::J => [
                [true, true, false, false],
                [false, true, false, false],
                [false, true, false, false],
                [false, false, false, false],
            ],
            BlockLetter::O => [
                [true, true, false, false],
                [true, true, false, false],
                [false, false, false, false],
                [false, false, false, false],
            ],
            BlockLetter::T => [
                [true, true, true, false],
                [false, true, false, false],
                [false, false, false, false],
                [false, false, false, false],
            ],
            BlockLetter::S => [
                [false, true, false, false],
                [true, true, false, false],
                [true, false, false, false],
                [false, false, false, false],
            ],
            BlockLetter::Z => [
                [true, false, false, false],
                [true, true, false, false],
                [false, true, false, false],
                [false, false, false, false],
            ],
        };
        let position = (GRID_ROWS as isize, GRID_COLS as isize / 2 - 2);
        let b = Block { shape, position, letter: block_letter };
        if b.shape[0][0] {
            assert(b.filled(0, 0));
        } else {
            assert(b.filled(0, 1));
        }
        b
    }

    /// Turns the mask by a quarter and slides it back into the bottom-left
    /// corner of the 4x4 box; kind and position stay.
    pub fn rotate(&mut self)
        ensures
            final(self).letter == old(self).letter,
            final(self).position == old(self).position,
            final(self).shape == rotated_shape(old(self).shape),
            old(self).has_cell() ==> final(self).has_cell(),
            forall|i: int, j: int|
                0 <= i < 4 && 0 <= j < 4 ==> #[trigger] final(self).shape[i][j] == rotated_cell(
                    old(self).shape,
                    i,
                    j,
                ),
    {
        let ghost s = self.shape;
        let mut re = [[false;4];4];
        let mut i: usize = 0;
        while i < 4
            invariant
                i <= 4,
                self.shape == s,
                forall|a: int, b: int|
                    0 <= a < i && 0 <= b < 4 ==> #[trigger] re[a][b] == turned(s, a, b),
            decreases 4 - i,
        {
            let mut j: usize = 0;
            while j < 4
                invariant
                    i < 4,
                    j <= 4,
                    self.shape == s,
                    forall|a: int, b: int|
                        0 <= a < i && 0 <= b < 4 ==> #[trigger] re[a][b] == turned(s, a, b),
                    forall|b: int| 0 <= b < j ==> #[trigger] re[i as int][b] == turned(s, i as int, b),
                decreases 4 - j,
            {
                re[i][j] = self.shape[j][3 - i];
                j = j + 1;
            }
            i = i + 1;
        }

        let mut leftmost_idx: usize = 3;
        let mut bottommost_idx: usize = 3;
        let mut i: usize = 0;
        while i < 4
            invariant
                i <= 4,
                leftmost_idx <= 3,
                bottommost_idx <= 3,
                forall|a: int, b: int|
                    0 <= a < 4 && 0 <= b < 4 ==> #[trigger] re[a][b] == turned(s, a, b),
                forall|a: int, b: int|
                    0 <= a < i && 0 <= b < 4 && #[trigger] turned(s, a, b) ==> leftmost_idx <= b
                        && bottommost_idx <= a,
                leftmost_idx < 3 ==> exists|a: int|
                    0 <= a < i && #[trigger] turned(s, a, leftmost_idx as int),
                bottommost_idx < 3 ==> exists|b: int|
                    0 <= b < 4 && #[trigger] turned(s, bottommost_idx as int, b),
            decreases 4 - i,
        {
            let mut j: usize = 0;
            while j < 4
                invariant
                    i < 4,
                    j <= 4,
                    leftmost_idx <= 3,
                    bottommost_idx <= 3,
                    forall|a: int, b: int|
                        0 <= a < 4 && 0 <= b < 4 ==> #[trigger] re[a][b] == turned(s, a, b),
                    forall|a: int, b: int|
                        0 <= a < i && 0 <= b < 4 && #[trigger] turned(s, a, b) ==> leftmost_idx <= b
                            && bottommost_idx <= a,
                    forall|b: int|
                        0 <= b < j && #[trigger] turned(s, i as int, b) ==> leftmost_idx <= b
                            && bottommost_idx <= i,
                    leftmost_idx < 3 ==> exists|a: int|
                        0 <= a <= i && #[trigger] turned(s, a, leftmost_idx as int),
                    bottommost_idx < 3 ==> exists|b: int|
                        0 <= b < 4 && #[trigger] turned(s, bottommost_idx as int, b),
                decreases 4 - j,
            {
                if re[i][j] {
                    if leftmost_idx > j {
                        leftmost_idx = j;
                    }
                    if bottommost_idx > i {
                        bottommost_idx = i;
                    }
                }
                j = j + 1;
            }
            i = i + 1;
        }
        assert(leftmost_idx as int == turned_left(s));
        assert(bottommost_idx as int == turned_bottom(s));

        let mut out = [[false;4];4];
        let mut i: usize = 0;
        while i < 4
            invariant
                i <= 4,
                leftmost_idx as int == turned_left(s),
                bottommost_idx as int == turned_bottom(s),
                leftmost_idx <= 3,
                bottommost_idx <= 3,
                forall|a: int, b: int|
                    0 <= a < 4 && 0 <= b < 4 ==> #[trigger] re[a][b] == turned(s, a, b),
                forall|a: int, b: int|
                    0 <= a < i && 0 <= b < 4 ==> #[trigger] out[a][b] == rotated_cell(s, a, b),
            decreases 4 - i,
        {
            let mut j: usize = 0;
            while j < 4
                invariant
                    i < 4,
                    j <= 4,
                    leftmost_idx as int == turned_left(s),
                    bottommost_idx as int == turned_bottom(s),
                    leftmost_idx <= 3,
                    bottommost_idx <= 3,
                    forall|a: int, b: int|
                        0 <= a < 4 && 0 <= b < 4 ==> #[trigger] re[a][b] == turned(s, a, b),
                    forall|a: int, b: int|
                        0 <= a < i && 0 <= b < 4 ==> #[trigger] out[a][b] == rotated_cell(s, a, b),
                    forall|b: int| 0 <= b < j ==> #[trigger] out[i as int][b] == rotated_cell(s, i as int, b),
                decreases 4 - j,
            {
                if i < 4 - bottommost_idx && j < 4 - leftmost_idx {
                    out[i][j] = re[i + bottommost_idx][j + leftmost_idx];
                } else {
                    out[i][j] = false;
                }
                j = j + 1;
            }
            i = i + 1;
        }
        self.shape = out;
        assert(self.shape[0] =~= rotated_shape(s)[0]);
        assert(self.shape[1] =~= rotated_shape(s)[1]);
        assert(self.shape[2] =~= rotated_shape(s)[2]);
        assert(self.shape[3] =~= rotated_shape(s)[3]);
        assert(self.shape =~= rotated_shape(s));
        proof {
            if old(self).has_cell() {
                let (r, c) = choose|r: int, c: int| #[trigger] old(self).filled(r, c);
                assert(turned(s, 3 - c, r));
                assert(turned_row_has(s, 3 - c));
                assert(turned_col_has(s, r));
                assert(rotated_cell(s, 3 - c - turned_bottom(s), r - turned_left(s)));
                assert(self.filled(3 - c - turned_bottom(s), r - turned_left(s)));
            }
        }
    }

    /// Moves the block by `delta`, which must be one step right, down or left.
    pub fn move_delta(&mut self, delta: (isize, isize))
        requires
            legal_delta(delta),
            isize::MIN <= old(self).position.0 + delta.0 <= isize::MAX,
            isize::MIN <= old(self).position.1 + delta.1 <= isize::MAX,
        ensures
            final(self).shape == old(self).shape,
            final(self).letter == old(self).letter,
            final(self).position.0 == old(self).position.0 + delta.0,
            final(self).position.1 == old(self).position.1 + delta.1,
    {
        if delta.0 == 0 && delta.1 == 1 {
            self.position.1 = self.position.1 + 1;
        } else if delta.0 == -1 && delta.1 == 0 {
            self.position.0 = self.position.0 - 1;
        } else {
            self.position.1 = self.position.1 - 1;
        }
    }

    /// The field coordinates that the cells of the mask would cover after a
    /// move by `delta`, in row-major order of the mask, up to index `n`.
    pub open spec fn occupancy_upto(&self, delta: (isize, isize), n: nat) -> Seq<(int, int)>
        decreases n,
    {
        if n == 0 {
            Seq::empty()
        } else {
            let prev = self.occupancy_upto(delta, (n - 1) as nat);
            let k = n - 1;
            let i = k / 4;
            let j = k % 4;
            if self.shape[i][j] {
                prev.push((self.position.0 + i + delta.0, self.position.1 + j + delta.1))
            } else {
                prev
            }
        }
    }

    /// The field coordinates that the block's cells would cover after a move
    /// by `delta`, in row-major order of the mask.
    pub open spec fn occupancy(&self, delta: (isize, isize)) -> Seq<(int, int)> {
        self.occupancy_upto(delta, 16)
    }

    /// Every coordinate of [`Block::occupancy`] fits in an `isize`, and so do
    /// the intermediate sums that compute it.
    pub open spec fn occupancy_fits(&self, delta: (isize, isize)) -> bool {
        forall|i: int, j: int|
            #![trigger self.shape[i][j]]
            0 <= i < 4 && 0 <= j < 4 && self.shape[i][j] ==> {
                &&& isize::MIN <= self.position.0 + i <= isize::MAX
                &&& isize::MIN <= self.position.0 + i + delta.0 <= isize::MAX
                &&& isize::MIN <= self.position.1 + j <= isize::MAX
                &&& isize::MIN <= self.position.1 + j + delta.1 <= isize::MAX
            }
    }

    /// The cells the block would cover after a move by `delta`.
    pub fn next_occupancy(&self, delta: (isize, isize)) -> (re: Vec<(isize, isize)>)
        requires
            self.occupancy_fits(delta),
        ensures
            re@.map_values(|p: (isize, isize)| (p.0 as int, p.1 as int)) == self.occupancy(delta),
    {
        let mut re: Vec<(isize, isize)> = Vec::new();
        let (row, col) = self.position;
        let mut i: usize = 0;
        while i < 4
            invariant
                i <= 4,
                (row, col) == self.position,
                self.occupancy_fits(delta),
                re@.map_values(|p: (isize, isize)| (p.0 as int, p.1 as int))
                    == self.occupancy_upto(delta, (4 * i) as nat),
            decreases 4 - i,
        {
            let mut j: usize = 0;
            while j < 4
                invariant
                    i < 4,
                    j <= 4,
                    (row, col) == self.position,
                    self.occupancy_fits(delta),
                    re@.map_values(|p: (isize, isize)| (p.0 as int, p.1 as int))
                        == self.occupancy_upto(delta, (4 * i + j) as nat),
                decreases 4 - j,
            {
                let ghost k: nat = (4 * i + j) as nat;
                assert(k / 4 == i && k % 4 == j);
                if self.shape[i][j] {
                    let ghost old_re = re@;
                    re.push((row + i as isize + delta.0, col + j as isize + delta.1));
                    assert(re@.map_values(|p: (isize, isize)| (p.0 as int, p.1 as int))
                        =~= old_re.map_values(|p: (isize, isize)| (p.0 as int, p.1 as int)).push(
                        (self.position.0 + i + delta.0, self.position.1 + j + delta.1)));
                }
                j = j + 1;
            }
            i = i + 1;
        }
        re
    }

    /// A coordinate is in [`Block::occupancy_upto`] exactly when one of the
    /// first `n` mask cells (row-major) is filled and lands there.
    pub proof fn lemma_occupancy_upto_contains(&self, delta: (isize, isize), n: nat, p: (int, int))
        requires
            n <= 16,
        ensures
            self.occupancy_upto(delta, n).contains(p) <==> exists|k: int|
                0 <= k < n && #[trigger] self.shape[k / 4][k % 4] && p == (
                    self.position.0 + k / 4 + delta.0,
                    self.position.1 + k % 4 + delta.1,
                ),
        decreases n,
    {
        if n > 0 {
            let prev = self.occupancy_upto(delta, (n - 1) as nat);
            self.lemma_occupancy_upto_contains(delta, (n - 1) as nat, p);
            let k = n - 1;
            if self.shape[k / 4][k % 4] {
                let q = (self.position.0 + k / 4 + delta.0, self.position.1 + k % 4 + delta.1);
                assert(prev.push(q)[prev.len() as int] == q);
                if prev.contains(p) {
                    let x = choose|x: int| 0 <= x < prev.len() && prev[x] == p;
                    assert(prev.push(q)[x] == p);
                }
                if prev.push(q).contains(p) && p != q {
                    let x = choose|x: int| 0 <= x < prev.len() + 1 && prev.push(q)[x] == p;
                    assert(prev[x] == p);
                }
            }
        }
    }

    /// A coordinate is in [`Block::occupancy`] exactly when a filled cell of
    /// the mask lands there.
    pub proof fn lemma_occupancy_contains(&self, delta: (isize, isize), p: (int, int))
        ensures
            self.occupancy(delta).contains(p) <==> exists|i: int, j: int|
                #![trigger self.filled(i, j)]
                self.filled(i, j) && p == (self.position.0 + i + delta.0, self.position.1 + j + delta.1),
    {
        self.lemma_occupancy_upto_contains(delta, 16, p);
        if self.occupancy(delta).contains(p) {
            let k = choose|k: int|
                0 <= k < 16 && #[trigger] self.shape[k / 4][k % 4] && p == (
                    self.position.0 + k / 4 + delta.0,
                    self.position.1 + k % 4 + delta.1,
                );
            assert(self.filled(k / 4, k % 4));
        }
        if exists|i: int, j: int|
            #![trigger self.filled(i, j)]
            self.filled(i, j) && p == (self.position.0 + i + delta.0, self.position.1 + j + delta.1)
        {
            let (i, j) = choose|i: int, j: int|
                #![trigger self.filled(i, j)]
                self.filled(i, j) && p == (self.position.0 + i + delta.0, self.position.1 + j + delta.1);
            let k = 4 * i + j;
            assert(k / 4 == i && k % 4 == j);
            assert(self.shape[k / 4][k % 4]);
        }
    }

    /// Where mask cell `k` (row-major) lands after a move by `delta`.
    pub open spec fn landing_of(&self, delta: (isize, isize), k: int) -> (int, int) {
        (self.position.0 + k / 4 + delta.0, self.position.1 + k % 4 + delta.1)
    }

    proof fn lemma_occupancy_upto_laws(&self, delta: (isize, isize), n: nat)
        requires
            n <= 16,
        ensures
            self.occupancy_upto(delta, n).len() == filled_upto(self.shape, n),
            self.occupancy_upto(delta, n).len() == self.occupancy_upto((0isize, 0isize), n).len(),
            forall|k: int|
                0 <= k < self.occupancy_upto(delta, n).len() ==> #[trigger] self.occupancy_upto(
                    delta,
                    n,
                )[k] == (self.occupancy_upto((0isize, 0isize), n)[k].0 + delta.0,
                self.occupancy_upto((0isize, 0isize), n)[k].1 + delta.1),
            forall|k: int|
                0 <= k < self.occupancy_upto(delta, n).len() ==> lex_before(
                    #[trigger] self.occupancy_upto(delta, n)[k],
                    self.landing_of(delta, n as int),
                ),
            forall|a: int, b: int|
                0 <= a < b < self.occupancy_upto(delta, n).len() ==> lex_before(
                    #[trigger] self.occupancy_upto(delta, n)[a],
                    #[trigger] self.occupancy_upto(delta, n)[b],
                ),
        decreases n,
    {
        if n > 0 {
            self.lemma_occupancy_upto_laws(delta, (n - 1) as nat);
            let k = n - 1;
            assert(lex_before(self.landing_of(delta, k), self.landing_of(delta, n as int)));
        }
    }

    /// The cells that a move covers: one per filled mask cell, in strictly
    /// increasing (row, column) order, and those of a move by `delta` are
    /// those of no move shifted by `delta`.
    pub proof fn occupancy_laws(&self, delta: (isize, isize))
        ensures
            self.occupancy(delta).len() == filled_count(self.shape),
            forall|a: int, b: int|
                0 <= a < b < self.occupancy(delta).len() ==> lex_before(
                    #[trigger] self.occupancy(delta)[a],
                    #[trigger] self.occupancy(delta)[b],
                ),
            self.occupancy(delta).len() == self.occupancy((0isize, 0isize)).len(),
            forall|k: int|
                0 <= k < self.occupancy(delta).len() ==> #[trigger] self.occupancy(delta)[k] == (
                self.occupancy((0isize, 0isize))[k].0 + delta.0,
                self.occupancy((0isize, 0isize))[k].1 + delta.1),
    {
        self.lemma_occupancy_upto_laws(delta, 16);
    }

    /// A block within reach can compute its cells after any move of at most
    /// one step in each direction.
    pub proof fn lemma_wf_occupancy_fits(&self, delta: (isize, isize))
        requires
            self.within(0),
            -1 <= delta.0 <= 1,
            -1 <= delta.1 <= 1,
        ensures
            self.occupancy_fits(delta),
    {
    }
}

/// The mask touches the bottom-left corner of its box: its lowest row and
/// its leftmost column both hold a cell.
pub open spec fn in_corner(s: [[bool; 4]; 4]) -> bool {
    (s[0][0] || s[0][1] || s[0][2] || s[0][3]) && (s[0][0] || s[1][0] || s[2][0] || s[3][0])
}

/// Every kind's starting mask touches the bottom-left corner.
pub proof fn fresh_shapes_touch_corner(b: Block)
    requires
        forall|i: int, j: int|
            0 <= i < 4 && 0 <= j < 4 ==> #[trigger] b.shape[i][j] == letter_shape(b.letter, i, j),
    ensures
        in_corner(b.shape),
{
    assert(b.shape[0][0] == letter_shape(b.letter, 0, 0));
    assert(b.shape[0][1] == letter_shape(b.letter, 0, 1));
    assert(b.shape[1][0] == letter_shape(b.letter, 1, 0));
}

/// A rotation of a non-empty mask leaves it touching the bottom-left corner.
pub proof fn rotation_lands_in_corner(s: [[bool; 4]; 4])
    requires
        exists|i: int, j: int| 0 <= i < 4 && 0 <= j < 4 && #[trigger] s[i][j],
    ensures
        in_corner(rotated_shape(s)),
{
    let (i, j) = choose|i: int, j: int| 0 <= i < 4 && 0 <= j < 4 && #[trigger] s[i][j];
    assert(turned(s, 3 - j, i));
}

/// Four rotations give back a mask that touches the bottom-left corner.
pub proof fn four_rotations_restore(s: [[bool; 4]; 4])
    requires
        in_corner(s),
    ensures
        rotated_shape(rotated_shape(rotated_shape(rotated_shape(s)))) == s,
{
    let r1 = rotated_shape(s);
    let r2 = rotated_shape(r1);
    let r3 = rotated_shape(r2);
    let r4 = rotated_shape(r3);
    assert(r4[0] =~= s[0]);
    assert(r4[1] =~= s[1]);
    assert(r4[2] =~= s[2]);
    assert(r4[3] =~= s[3]);
    assert(r4 =~= s);
}

/// Among the first `n` cells of mask `s` (row-major), the number of filled ones.
pub open spec fn filled_upto(s: [[bool; 4]; 4], n: nat) -> nat
    decreases n,
{
    if n == 0 {
        0
    } else {
        let k = n - 1;
        filled_upto(s, (n - 1) as nat) + cell_value(s[k / 4][k % 4])
    }
}

/// One for a filled cell, zero for an empty one.
pub open spec fn cell_value(b: bool) -> nat {
    if b {
        1
    } else {
        0
    }
}

/// The number of filled cells of mask `s`.
pub open spec fn filled_count(s: [[bool; 4]; 4]) -> nat {
    filled_upto(s, 16)
}

/// Cell `a` comes before cell `b` in (row, column) order.
pub open spec fn lex_before(a: (int, int), b: (int, int)) -> bool {
    a.0 < b.0 || (a.0 == b.0 && a.1 < b.1)
}

/// Cells `a` and `b` share an edge.
pub open spec fn adjacent(a: (int, int), b: (int, int)) -> bool {
    (a.0 == b.0 && (a.1 == b.1 + 1 || b.1 == a.1 + 1)) || (a.1 == b.1 && (a.0 == b.0 + 1 || b.0
        == a.0 + 1))
}

/// Cell `p` lies in the 4x4 box and is filled in `s`.
pub open spec fn on_mask(s: [[bool; 4]; 4], p: (int, int)) -> bool {
    0 <= p.0 < 4 && 0 <= p.1 < 4 && s[p.0][p.1]
}

/// `p0` to `p3` are four different filled cells of `s`, each after the first
/// sharing an edge with an earlier one.
pub open spec fn linked_four(
    s: [[bool; 4]; 4],
    p0: (int, int),
    p1: (int, int),
    p2: (int, int),
    p3: (int, int),
) -> bool {
    &&& on_mask(s, p0) && on_mask(s, p1) && on_mask(s, p2) && on_mask(s, p3)
    &&& p0 != p1 && p0 != p2 && p0 != p3 && p1 != p2 && p1 != p3 && p2 != p3
    &&& adjacent(p1, p0)
    &&& adjacent(p2, p0) || adjacent(p2, p1)
    &&& adjacent(p3, p0) || adjacent(p3, p1) || adjacent(p3, p2)
}

/// The filled cells of `s` can be listed as four edge-linked cells.
pub open spec fn edge_connected_four(s: [[bool; 4]; 4]) -> bool {
    exists|p0: (int, int), p1: (int, int), p2: (int, int), p3: (int, int)|
        #[trigger] linked_four(s, p0, p1, p2, p3)
}

/// Every newly created block has exactly four cells, all edge-connected,
/// and touches the bottom-left corner of its box.
pub proof fn new_block_masks(b: Block)
    requires
        forall|i: int, j: int|
            0 <= i < 4 && 0 <= j < 4 ==> #[trigger] b.shape[i][j] == letter_shape(b.letter, i, j),
    ensures
        filled_count(b.shape) == 4,
        edge_connected_four(b.shape),
        in_corner(b.shape),
{
    fresh_shapes_touch_corner(b);
    let s = b.shape;
    assert forall|i: int, j: int| 0 <= i < 4 && 0 <= j < 4 implies #[trigger] s[i][j] == letter_shape(
        b.letter,
        i,
        j,
    ) by {}
    reveal_with_fuel(filled_upto, 17);
    match b.letter {
        BlockLetter::I => {
            assert(linked_four(s, (0, 0), (1, 0), (2, 0), (3, 0)));
        },
        BlockLetter::L => {
            assert(linked_four(s, (0, 0), (0, 1), (1, 0), (2, 0)));
        },
        BlockLetter::J => {
            assert(linked_four(s, (0, 0), (0, 1), (1, 1), (2, 1)));
        },
        BlockLetter::O => {
            assert(linked_four(s, (0, 0), (0, 1), (1, 0), (1, 1)));
        },
        BlockLetter::T => {
            assert(linked_four(s, (0, 0), (0, 1), (0, 2), (1, 1)));
        },
        BlockLetter::S => {
            assert(linked_four(s, (0, 1), (1, 1), (1, 0), (2, 0)));
        },
        BlockLetter::Z => {
            assert(linked_four(s, (0, 0), (1, 0), (1, 1), (2, 1)));
        },
    }
}

/// Different kinds start with different masks.
pub proof fn kinds_have_distinct_masks(l1: BlockLetter, l2: BlockLetter)
    requires
        l1 != l2,
    ensures
        exists|i: int, j: int|
            0 <= i < 4 && 0 <= j < 4 && #[trigger] letter_shape(l1, i, j) != letter_shape(l2, i, j),
{
    // Cells (0, 1), (0, 2), (1, 0), (1, 1), (2, 0), (2, 1) and (3, 0) tell
    // the seven kinds apart.
    assert(letter_shape(l1, 0, 1) != letter_shape(l2, 0, 1) || letter_shape(l1, 0, 2)
        != letter_shape(l2, 0, 2) || letter_shape(l1, 1, 0) != letter_shape(l2, 1, 0)
        || letter_shape(l1, 1, 1) != letter_shape(l2, 1, 1) || letter_shape(l1, 2, 0)
        != letter_shape(l2, 2, 0) || letter_shape(l1, 2, 1) != letter_shape(l2, 2, 1)
        || letter_shape(l1, 3, 0) != letter_shape(l2, 3, 0));
}

/// The row-major indices below `n` of the filled cells of `s`.
pub open spec fn cells_below(s: [[bool; 4]; 4], n: int) -> Set<int> {
    Set::new(|k: int| 0 <= k < n && s[k / 4][k % 4])
}

/// Counting the filled cells one by one gives the size of their set.
proof fn lemma_filled_upto_is_size(s: [[bool; 4]; 4], n: nat)
    ensures
        cells_below(s, n as int).finite(),
        filled_upto(s, n) == cells_below(s, n as int).len(),
    decreases n,
{
    if n == 0 {
        assert(cells_below(s, 0) =~= Set::<int>::empty());
    } else {
        lemma_filled_upto_is_size(s, (n - 1) as nat);
        let k = n - 1;
        let prev = cells_below(s, k);
        if s[k / 4][k % 4] {
            assert(cells_below(s, n as int) =~= prev.insert(k));
        } else {
            assert(cells_below(s, n as int) =~= prev);
        }
    }
}

/// Where a rotation takes mask cell `k` (row-major): cell (`r`, `c`) turns
/// to (`3 - c`, `r`) and slides down by the turned mask's lowest filled row
/// and left by its leftmost filled column.
pub open spec fn rotated_index(s: [[bool; 4]; 4], k: int) -> int {
    4 * (3 - k % 4 - turned_bottom(s)) + (k / 4 - turned_left(s))
}

/// A rotation keeps the number of cells of the mask: it moves the cells one
/// to one.
pub proof fn rotation_keeps_cell_count(s: [[bool; 4]; 4])
    ensures
        filled_count(rotated_shape(s)) == filled_count(s),
{
    let r = rotated_shape(s);
    let x = cells_below(s, 16);
    let y = cells_below(r, 16);
    let f = |k: int| rotated_index(s, k);
    let b = turned_bottom(s);
    let l = turned_left(s);
    lemma_filled_upto_is_size(s, 16);
    lemma_filled_upto_is_size(r, 16);
    assert forall|k: int| #[trigger] x.contains(k) implies y.contains(f(k)) && 0 <= k / 4 - l && 3
        - k % 4 - b >= 0 by {
        let row = k / 4;
        let col = k % 4;
        assert(turned(s, 3 - col, row));
        assert(turned_row_has(s, 3 - col));
        assert(turned_col_has(s, row));
        let m = f(k);
        assert(m / 4 == 3 - col - b && m % 4 == row - l);
        assert(rotated_cell(s, 3 - col - b, row - l));
    }
    assert forall|m: int| #[trigger] y.contains(m) implies x.contains(
        4 * (m % 4 + l) + (3 - m / 4 - b),
    ) && f(4 * (m % 4 + l) + (3 - m / 4 - b)) == m by {
        let i = m / 4;
        let j = m % 4;
        assert(rotated_cell(s, i, j));
        let k = 4 * (j + l) + (3 - i - b);
        assert(k / 4 == j + l && k % 4 == 3 - i - b);
    }
    assert(x.map(f) =~= y) by {
        assert forall|m: int| y.contains(m) implies x.map(f).contains(m) by {
            let k = 4 * (m % 4 + l) + (3 - m / 4 - b);
            assert(x.contains(k) && f(k) == m);
        }
    }
    assert(vstd::relations::injective_on(f, x)) by {
        assert forall|k1: int, k2: int|
            x.contains(k1) && x.contains(k2) && #[trigger] f(k1) == #[trigger] f(k2) implies k1
            == k2 by {
            let m = f(k1);
            assert(m / 4 == 3 - k1 % 4 - b && m % 4 == k1 / 4 - l);
            assert(m / 4 == 3 - k2 % 4 - b && m % 4 == k2 / 4 - l);
        }
    }
    vstd::set_lib::lemma_map_size(x, y, f);
}

/// The two pairs of mirror kinds: J's starting mask is L's mirrored across
/// its first two columns, and Z's is S's; none of the four reaches past the
/// second column.
pub proof fn mirror_kinds(i: int, j: int)
    requires
        0 <= i < 4,
        0 <= j < 4,
    ensures
        j < 2 ==> letter_shape(BlockLetter::J, i, j) == letter_shape(BlockLetter::L, i, 1 - j),
        j < 2 ==> letter_shape(BlockLetter::Z, i, j) == letter_shape(BlockLetter::S, i, 1 - j),
        j >= 2 ==> !letter_shape(BlockLetter::J, i, j) && !letter_shape(BlockLetter::L, i, j)
            && !letter_shape(BlockLetter::S, i, j) && !letter_shape(BlockLetter::Z, i, j),
{
}

/// On a field whose visible cells are all empty, a cell is occupied exactly
/// when it lies below row 0 or outside columns 0 to `GRID_COLS - 1`; on any
/// field, a filled visible cell is occupied and every cell above the visible
/// rows between the walls is free.
pub proof fn occupied_cells_of_the_field(grid: Grid, r: int, c: int)
    requires
        grid.wf(),
    ensures
        (forall|rr: int, cc: int|
            0 <= rr < GRID_ROWS && 0 <= cc < GRID_COLS ==> #[trigger] grid.cell(rr, cc)
                == CellState::Empty) ==> (grid.occupied(r, c) <==> (r < 0 || c < 0 || c >= 10)),
        0 <= r < 20 && 0 <= c < 10 && grid.cell(r, c) != CellState::Empty ==> grid.occupied(r, c),
        r >= 20 && 0 <= c < 10 ==> !grid.occupied(r, c),
{
}

} // verus!

use vstd::prelude::*;
use crate::components::{
    Block, BlockLetter, CellState, Grid, GRID_COLS, GRID_ROWS, in_corner, letter_shape,
    rotated_shape, spawn_position, four_rotations_restore, fresh_shapes_touch_corner,
};

verus! {

/// The keys the game reacts to; every other key is `Other`.
#[derive(Clone, Copy, Debug, PartialEq, Eq, Structural)]
pub enum Key {
    Space,
    ArrowUp,
    ArrowLeft,
    ArrowRight,
    ArrowDown,
    Other,
}

/// Whether the mask of `b`, with its bottom-left corner at (`row`, `col`),
/// would cover an occupied cell of `grid`.
pub open spec fn hits(grid: Grid, b: Block, row: int, col: int) -> bool {
    exists|i: int, j: int| #[trigger] b.filled(i, j) && grid.occupied(row + i, col + j)
}

/// `b` with its corner moved to (`row`, `col`).
pub open spec fn placed(b: Block, row: int, col: int) -> Block {
    Block { shape: b.shape, letter: b.letter, position: (row as isize, col as isize) }
}

/// The row at which `b`, dropped straight down from `row`, comes to rest:
/// it keeps falling while the row below is free.
pub open spec fn landing_row(grid: Grid, b: Block, row: int) -> int
    decreases row + 4,
{
    if row <= -4 || hits(grid, b, row - 1, b.position.1 as int) {
        row
    } else {
        landing_row(grid, b, row - 1)
    }
}

/// `b` with its mask rotated, see [`rotated_shape`].
pub open spec fn turned_block(b: Block) -> Block {
    Block { shape: rotated_shape(b.shape), letter: b.letter, position: b.position }
}

/// The block after one key press: space drops it, up rotates it where the
/// rotated mask is free, left, right and down move it one step where that
/// step is free.
pub open spec fn after_key(grid: Grid, b: Block, k: Key) -> Block {
    let row = b.position.0 as int;
    let col = b.position.1 as int;
    match k {
        Key::Space => placed(b, landing_row(grid, b, row), col),
        Key::ArrowUp => if hits(grid, turned_block(b), row, col) {
            b
        } else {
            turned_block(b)
        },
        Key::ArrowLeft => if hits(grid, b, row, col - 1) {
            b
        } else {
            placed(b, row, col - 1)
        },
        Key::ArrowRight => if hits(grid, b, row, col + 1) {
            b
        } else {
            placed(b, row, col + 1)
        },
        Key::ArrowDown => if hits(grid, b, row - 1, col) {
            b
        } else {
            placed(b, row - 1, col)
        },
        Key::Other => b,
    }
}

/// The block after the key presses `keys`, taken in order.
pub open spec fn after_keys(grid: Grid, b: Block, keys: Seq<Key>) -> Block
    decreases keys.len(),
{
    if keys.len() == 0 {
        b
    } else {
        after_key(grid, after_keys(grid, b, keys.drop_last()), keys.last())
    }
}

/// A block placed where its mask hits nothing lies within reach of the
/// field: its row is at least -3 and its column between -3 and the last
/// column.
proof fn lemma_free_place_bounds(grid: Grid, b: Block, row: int, col: int)
    requires
        b.has_cell(),
        !hits(grid, b, row, col),
    ensures
        -3 <= row,
        -3 <= col < crate::components::GRID_COLS,
{
    let (i, j) = choose|i: int, j: int| #[trigger] b.filled(i, j);
    assert(!grid.occupied(row + i, col + j));
}

/// The landing row lies at or below the start row, and unless it is the
/// start row the block fits there.
proof fn lemma_landing_row(grid: Grid, b: Block, row: int)
    ensures
        landing_row(grid, b, row) <= row,
        landing_row(grid, b, row) == row || !hits(
            grid,
            b,
            landing_row(grid, b, row),
            b.position.1 as int,
        ),
    decreases row + 4,
{
    if !(row <= -4 || hits(grid, b, row - 1, b.position.1 as int)) {
        lemma_landing_row(grid, b, row - 1);
    }
}

/// A key press keeps a block in play.
#[verifier::spinoff_prover]
#[verifier::rlimit(40)]
pub proof fn lemma_after_key_wf(grid: Grid, b: Block, k: Key)
    requires
        b.wf(),
    ensures
        after_key(grid, b, k).wf(),
{
    let row = b.position.0 as int;
    let col = b.position.1 as int;
    match k {
        Key::Space => {
            lemma_landing_row(grid, b, row);
            let r = landing_row(grid, b, row);
            if r != row {
                lemma_free_place_bounds(grid, b, r, col);
            }
            let (i, j) = choose|i: int, j: int| #[trigger] b.filled(i, j);
            assert(placed(b, r, col).filled(i, j));
        },
        Key::ArrowUp => {
            let (i, j) = choose|i: int, j: int| #[trigger] b.filled(i, j);
            let s = b.shape;
            assert(crate::components::turned(s, 3 - j, i));
            assert(crate::components::turned_row_has(s, 3 - j));
            assert(crate::components::turned_col_has(s, i));
            let ii = 3 - j - crate::components::turned_bottom(s);
            let jj = i - crate::components::turned_left(s);
            assert(crate::components::rotated_cell(s, ii, jj));
            assert(rotated_shape(s)[ii][jj]);
            assert(turned_block(b).filled(ii, jj));
        },
        Key::ArrowLeft => {
            if !hits(grid, b, row, col - 1) {
                lemma_free_place_bounds(grid, b, row, col - 1);
                let (i, j) = choose|i: int, j: int| #[trigger] b.filled(i, j);
                assert(placed(b, row, col - 1).filled(i, j));
            }
        },
        Key::ArrowRight => {
            if !hits(grid, b, row, col + 1) {
                lemma_free_place_bounds(grid, b, row, col + 1);
                let (i, j) = choose|i: int, j: int| #[trigger] b.filled(i, j);
                assert(placed(b, row, col + 1).filled(i, j));
            }
        },
        Key::ArrowDown => {
            if !hits(grid, b, row - 1, col) {
                lemma_free_place_bounds(grid, b, row - 1, col);
                let (i, j) = choose|i: int, j: int| #[trigger] b.filled(i, j);
                assert(placed(b, row - 1, col).filled(i, j));
            }
        },
        Key::Other => {},
    }
}

/// A block with an empty mask never hits anything: every key but space
/// moves it by at most one step in each direction and leaves its mask empty.
pub proof fn lemma_after_key_empty(grid: Grid, b: Block, k: Key, n: int)
    requires
        !b.has_cell(),
        k != Key::Space,
        b.within(n + 1),
    ensures
        after_key(grid, b, k).within(n),
        !after_key(grid, b, k).has_cell(),
{
    let row = b.position.0 as int;
    let col = b.position.1 as int;
    assert(!hits(grid, b, row, col - 1));
    assert(!hits(grid, b, row, col + 1));
    assert(!hits(grid, b, row - 1, col));
    if k == Key::ArrowUp {
        let t = turned_block(b);
        if t.has_cell() {
            let (i, j) = choose|i: int, j: int| #[trigger] t.filled(i, j);
            let s = b.shape;
            assert(crate::components::rotated_cell(s, i, j));
            let bb = crate::components::turned_bottom(s);
            let ll = crate::components::turned_left(s);
            assert(b.filled(j + ll, 3 - (i + bb)));
        }
    } else {
        let a = after_key(grid, b, k);
        if a.has_cell() {
            let (i, j) = choose|i: int, j: int| #[trigger] a.filled(i, j);
            assert(b.filled(i, j));
        }
    }
}

/// Whether a mask hits depends only on the mask.
proof fn lemma_hits_same_shape(grid: Grid, a: Block, b: Block, row: int, col: int)
    requires
        a.shape == b.shape,
    ensures
        hits(grid, a, row, col) == hits(grid, b, row, col),
{
    if hits(grid, a, row, col) {
        let (i, j) = choose|i: int, j: int| #[trigger] a.filled(i, j) && grid.occupied(row + i, col + j);
        assert(b.filled(i, j));
    }
    if hits(grid, b, row, col) {
        let (i, j) = choose|i: int, j: int| #[trigger] b.filled(i, j) && grid.occupied(row + i, col + j);
        assert(a.filled(i, j));
    }
}

/// Whether the block, moved by `delta`, would cover an occupied cell.
fn is_blocked(grid: &Grid, block: &Block, delta: (isize, isize)) -> (b: bool)
    requires
        grid.wf(),
        block.occupancy_fits(delta),
    ensures
        b == hits(*grid, *block, block.position.0 + delta.0, block.position.1 + delta.1),
{
    let cells = block.next_occupancy(delta);
    let ghost occ = block.occupancy(delta);
    let mut k: usize = 0;
    while k < cells.len()
        invariant
            grid.wf(),
            k <= cells.len(),
            occ == block.occupancy(delta),
            cells@.map_values(|p: (isize, isize)| (p.0 as int, p.1 as int)) == occ,
            forall|m: int| 0 <= m < k ==> !grid.occupied(#[trigger] occ[m].0, occ[m].1),
        decreases cells.len() - k,
    {
        let (r, c) = cells[k];
        assert(occ[k as int] == (r as int, c as int));
        if grid.is_occupied(r, c) {
            proof {
                block.lemma_occupancy_contains(delta, occ[k as int]);
                assert(occ.contains(occ[k as int]));
                let (i, j) = choose|i: int, j: int|
                    #![trigger block.filled(i, j)]
                    block.filled(i, j) && occ[k as int] == (
                        block.position.0 + i + delta.0,
                        block.position.1 + j + delta.1,
                    );
                assert(grid.occupied(
                    block.position.0 + delta.0 + i,
                    block.position.1 + delta.1 + j,
                ));
            }
            return true;
        }
        k = k + 1;
    }
    proof {
        assert forall|i: int, j: int|
            #[trigger] block.filled(i, j) implies !grid.occupied(
            block.position.0 + delta.0 + i,
            block.position.1 + delta.1 + j,
        ) by {
            let p = (block.position.0 + i + delta.0, block.position.1 + j + delta.1);
            block.lemma_occupancy_contains(delta, p);
            let m = choose|m: int| 0 <= m < occ.len() && occ[m] == p;
            assert(!grid.occupied(occ[m].0, occ[m].1));
        }
    }
    false
}

/// Applies the key presses of one frame, in order, to the active block.
pub fn handle_keyboard_input(grid: &Grid, block: &mut Block, keys: &Vec<Key>)
    requires
        grid.wf(),
        old(block).within(if old(block).has_cell() { 0 } else { keys.len() as int }),
        !old(block).has_cell() ==> !keys@.contains(Key::Space),
    ensures
        *final(block) == after_keys(*grid, *old(block), keys@),
        final(block).has_cell() == old(block).has_cell(),
        old(block).has_cell() ==> final(block).wf(),
{
    let ghost b0 = *block;
    let mut k: usize = 0;
    while k < keys.len()
        invariant
            grid.wf(),
            k <= keys.len(),
            block.has_cell() == b0.has_cell(),
            block.within(if b0.has_cell() { 0 } else { keys.len() - k }),
            !b0.has_cell() ==> !keys@.contains(Key::Space),
            *block == after_keys(*grid, b0, keys@.take(k as int)),
        decreases keys.len() - k,
    {
        let ghost before = *block;
        proof {
            if !b0.has_cell() && keys@[k as int] == Key::Space {
                assert(keys@.contains(Key::Space));
            }
        }
        match keys[k] {
            Key::Space => {
                let delta: (isize, isize) = (-1, 0);
                loop
                    invariant
                        grid.wf(),
                        block.wf(),
                        delta == (-1isize, 0isize),
                        block.shape == before.shape,
                        block.letter == before.letter,
                        block.position.1 == before.position.1,
                        landing_row(*grid, before, block.position.0 as int) == landing_row(
                            *grid,
                            before,
                            before.position.0 as int,
                        ),
                    ensures
                        hits(*grid, before, block.position.0 - 1, before.position.1 as int),
                    decreases block.position.0 + 4,
                {
                    proof {
                        block.lemma_wf_occupancy_fits(delta);
                        assert forall|i: int, j: int|
                            #[trigger] block.filled(i, j) == before.filled(i, j) by {}
                    }
                    let blocked = is_blocked(grid, block, delta);
                    proof {
                        lemma_hits_same_shape(*grid, *block, before, block.position.0 - 1, block.position.1 as int);
                    }
                    if blocked {
                        break ;
                    }
                    proof {
                        lemma_free_place_bounds(
                            *grid,
                            *block,
                            block.position.0 - 1,
                            block.position.1 as int,
                        );
                    }
                    block.move_delta(delta);
                    proof {
                        let (i, j) = choose|i: int, j: int| #[trigger] before.filled(i, j);
                        assert(block.filled(i, j));
                    }
                }
                proof {
                    let r = block.position.0 as int;
                    assert(landing_row(*grid, before, r) == r);
                    assert(block.position == (r as isize, before.position.1));
                }
                assert(*block == after_key(*grid, before, keys@[k as int]));
            },
            Key::ArrowUp => {
                let mut turned = *block;
                turned.rotate();
                proof {
                    turned.lemma_wf_occupancy_fits((0isize, 0isize));
                }
                if !is_blocked(grid, &turned, (0, 0)) {
                    *block = turned;
                }
                assert(*block == after_key(*grid, before, keys@[k as int]));
            },
            Key::ArrowLeft => {
                let delta: (isize, isize) = (0, -1);
                proof {
                    block.lemma_wf_occupancy_fits(delta);
                }
                if !is_blocked(grid, block, delta) {
                    block.move_delta(delta);
                }
                assert(*block == after_key(*grid, before, keys@[k as int]));
            },
            Key::ArrowRight => {
                let delta: (isize, isize) = (0, 1);
                proof {
                    block.lemma_wf_occupancy_fits(delta);
                }
                if !is_blocked(grid, block, delta) {
                    block.move_delta(delta);
                }
                assert(*block == after_key(*grid, before, keys@[k as int]));
            },
            Key::ArrowDown => {
                let delta: (isize, isize) = (-1, 0);
                proof {
                    block.lemma_wf_occupancy_fits(delta);
                }
                if !is_blocked(grid, block, delta) {
                    block.move_delta(delta);
                }
                assert(*block == after_key(*grid, before, keys@[k as int]));
            },
            Key::Other => {},
        }
        proof {
            if b0.has_cell() {
                lemma_after_key_wf(*grid, before, keys@[k as int]);
            } else {
                lemma_after_key_empty(*grid, before, keys@[k as int], keys.len() - k - 1);
            }
            assert(keys@.take(k + 1).drop_last() =~= keys@.take(k as int));
        }
        k = k + 1;
    }
    assert(keys@.take(keys.len() as int) =~= keys@);
}

/// Whether `b` covers field cell (`row`, `col`).
pub open spec fn covers(b: Block, row: int, col: int) -> bool {
    b.filled(row - b.position.0, col - b.position.1)
}

/// Every cell of `b` in a visible row lies between the walls, so that
/// locking it never writes outside the field.
pub open spec fn lockable(b: Block) -> bool {
    forall|i: int, j: int|
        #[trigger] b.filled(i, j) && 0 <= b.position.0 + i < GRID_ROWS ==> 0 <= b.position.1 + j
            < GRID_COLS
}

/// Among the first `n` mask cells (row-major), the number of filled ones
/// that lie outside the visible rows.
pub open spec fn overflow_upto(b: Block, n: nat) -> nat
    decreases n,
{
    if n == 0 {
        0
    } else {
        let k = n - 1;
        let row = b.position.0 + k / 4;
        overflow_upto(b, (n - 1) as nat) + if b.shape[k / 4][k % 4] && !(0 <= row < GRID_ROWS) {
            1nat
        } else {
            0nat
        }
    }
}

/// The number of cells of `b` that lie below or above the visible rows.
pub open spec fn overflow_count(b: Block) -> nat {
    overflow_upto(b, 16)
}

/// `after` is `before` with the visible cells of `b` filled with its kind.
pub open spec fn locked_into(before: Grid, after: Grid, b: Block) -> bool {
    &&& after.wf()
    &&& forall|r: int, c: int|
        0 <= r < GRID_ROWS && 0 <= c < GRID_COLS ==> #[trigger] after.cell(r, c) == if covers(
            b,
            r,
            c,
        ) {
            CellState::Filled(b.letter)
        } else {
            before.cell(r, c)
        }
}

/// `b` is a block just created for kind `l`.
pub open spec fn fresh_block(b: Block, l: BlockLetter) -> bool {
    &&& b.letter == l
    &&& b.position == spawn_position()
    &&& forall|i: int, j: int| 0 <= i < 4 && 0 <= j < 4 ==> #[trigger] b.shape[i][j] == letter_shape(l, i, j)
}

/// Whether every cell of `block` in a visible row lies between the walls,
/// see [`lockable`].
pub fn lock_fits(block: &Block) -> (ok: bool)
    requires
        block.within(0),
    ensures
        ok == lockable(*block),
{
    let mut i: usize = 0;
    while i < 4
        invariant
            i <= 4,
            block.within(0),
            forall|a: int, b: int|
                #![trigger block.filled(a, b)]
                0 <= a < i && block.filled(a, b) && 0 <= block.position.0 + a < GRID_ROWS ==> 0
                    <= block.position.1 + b < GRID_COLS,
        decreases 4 - i,
    {
        let mut j: usize = 0;
        while j < 4
            invariant
                i < 4,
                j <= 4,
                block.within(0),
                forall|a: int, b: int|
                    #![trigger block.filled(a, b)]
                    (0 <= a < i || (a == i && 0 <= b < j)) && block.filled(a, b) && 0
                        <= block.position.0 + a < GRID_ROWS ==> 0 <= block.position.1 + b
                        < GRID_COLS,
            decreases 4 - j,
        {
            if block.shape[i][j] {
                let row = block.position.0 + i as isize;
                let col = block.position.1 + j as isize;
                if 0 <= row && row < GRID_ROWS as isize && (col < 0 || col >= GRID_COLS as isize) {
                    assert(block.filled(i as int, j as int));
                    return false;
                }
            }
            j = j + 1;
        }
        i = i + 1;
    }
    true
}

/// Writes the visible cells of `block` into the field; returns how many of
/// its cells lay outside the visible rows.
fn lock_block(grid: &mut Grid, block: &Block) -> (overflow: usize)
    requires
        old(grid).wf(),
        block.within(0),
        lockable(*block),
    ensures
        locked_into(*old(grid), *final(grid), *block),
        overflow == overflow_count(*block),
{
    let ghost g0 = *grid;
    let mut overflow: usize = 0;
    let mut i: usize = 0;
    while i < 4
        invariant
            i <= 4,
            grid.wf(),
            block.within(0),
            lockable(*block),
            overflow == overflow_upto(*block, (4 * i) as nat),
            overflow <= 4 * i,
            forall|r: int, c: int|
                0 <= r < GRID_ROWS && 0 <= c < GRID_COLS ==> #[trigger] grid.cell(r, c) == if covers(
                    *block,
                    r,
                    c,
                ) && r - block.position.0 < i {
                    CellState::Filled(block.letter)
                } else {
                    g0.cell(r, c)
                },
        decreases 4 - i,
    {
        let mut j: usize = 0;
        while j < 4
            invariant
                i < 4,
                j <= 4,
                grid.wf(),
                block.within(0),
                lockable(*block),
                overflow == overflow_upto(*block, (4 * i + j) as nat),
                overflow <= 4 * i + j,
                forall|r: int, c: int|
                    0 <= r < GRID_ROWS && 0 <= c < GRID_COLS ==> #[trigger] grid.cell(r, c) == if covers(
                        *block,
                        r,
                        c,
                    ) && (r - block.position.0 < i || (r - block.position.0 == i && c
                        - block.position.1 < j)) {
                        CellState::Filled(block.letter)
                    } else {
                        g0.cell(r, c)
                    },
            decreases 4 - j,
        {
            let ghost k: nat = (4 * i + j) as nat;
            assert(k / 4 == i && k % 4 == j);
            if block.shape[i][j] {
                let row = block.position.0 + i as isize;
                let col = block.position.1 + j as isize;
                if row < 0 || row >= GRID_ROWS as isize {
                    overflow = overflow + 1;
                } else {
                    assert(block.filled(i as int, j as int));
                    let ghost before = *grid;
                    grid.cells[row as usize][col as usize] = CellState::Filled(block.letter);
                    assert(forall|r: int| 0 <= r < GRID_ROWS && r != row ==> #[trigger] grid.cells@[r]
                        == before.cells@[r]);
                }
            }
            j = j + 1;
        }
        i = i + 1;
    }
    overflow
}

/// What one game tick did.
#[derive(Clone, Copy, Debug, PartialEq, Eq, Structural)]
pub enum TickOutcome {
    /// There was no active block; a new one was created.
    Spawned,
    /// The active block could not fall and was written into the field;
    /// `overflow` of its cells lay outside the visible rows.
    Locked { overflow: usize },
    /// The active block fell one row.
    MovedDown,
}

/// One step of the game clock: create a block when none is active; else
/// move the active block down one row, or, when the row below is taken,
/// write it into the field and retire it.
pub fn tick(grid: &mut Grid, active: &mut Option<Block>) -> (out: TickOutcome)
    requires
        old(grid).wf(),
        match *old(active) {
            Some(b) => b.within(0) && lockable(b),
            None => true,
        },
    ensures
        final(grid).wf(),
        match *old(active) {
            None => {
                &&& out == TickOutcome::Spawned
                &&& final(grid).cells@ == old(grid).cells@
                &&& *final(active) matches Some(nb) && fresh_block(nb, nb.letter) && nb.wf()
            },
            Some(b) => if hits(*old(grid), b, b.position.0 - 1, b.position.1 as int) {
                &&& out == (TickOutcome::Locked { overflow: overflow_count(b) as usize })
                &&& *final(active) is None
                &&& locked_into(*old(grid), *final(grid), b)
            } else {
                &&& out == TickOutcome::MovedDown
                &&& *final(active) == Some(placed(b, b.position.0 - 1, b.position.1 as int))
                &&& final(grid).cells@ == old(grid).cells@
                &&& b.has_cell() ==> placed(b, b.position.0 - 1, b.position.1 as int).wf()
            },
        },
{
    match active.take() {
        None => {
            let letter = BlockLetter::sample();
            let b = Block::new(letter);
            *active = Some(b);
            TickOutcome::Spawned
        },
        Some(mut block) => {
            let delta: (isize, isize) = (-1, 0);
            proof {
                block.lemma_wf_occupancy_fits(delta);
            }
            if is_blocked(grid, &block, delta) {
                let overflow = lock_block(grid, &block);
                TickOutcome::Locked { overflow }
            } else {
                proof {
                    if block.has_cell() {
                        lemma_free_place_bounds(
                            *grid,
                            block,
                            block.position.0 - 1,
                            block.position.1 as int,
                        );
                        let (i, j) = choose|i: int, j: int| #[trigger] block.filled(i, j);
                        assert(placed(block, block.position.0 - 1, block.position.1 as int).filled(i, j));
                    }
                }
                block.move_delta(delta);
                *active = Some(block);
                TickOutcome::MovedDown
            }
        },
    }
}

/// Every cell of the visible width of `row` is filled.
pub open spec fn row_full(row: Seq<CellState>) -> bool {
    forall|c: int| 0 <= c < GRID_COLS ==> #[trigger] row[c] != CellState::Empty
}

/// The indices below `n` of full rows, in increasing order.
pub open spec fn full_rows_upto(rows: Seq<Seq<CellState>>, n: nat) -> Seq<int>
    decreases n,
{
    if n == 0 {
        Seq::empty()
    } else {
        let prev = full_rows_upto(rows, (n - 1) as nat);
        if row_full(rows[n - 1]) {
            prev.push(n - 1)
        } else {
            prev
        }
    }
}

/// The indices of the full rows of the visible field, in increasing order.
pub open spec fn full_rows(rows: Seq<Seq<CellState>>) -> Seq<int> {
    full_rows_upto(rows, GRID_ROWS as nat)
}

/// A row of empty cells.
pub open spec fn empty_row() -> Seq<CellState> {
    Seq::new(GRID_COLS as nat, |c: int| CellState::Empty)
}

/// The field after a line check: with `n` full rows of which the lowest is
/// `f`, the `n` rows starting at `f` are taken out, the rows above slide
/// down, and `n` empty rows come in at the top.
pub open spec fn cleared(rows: Seq<Seq<CellState>>) -> Seq<Seq<CellState>> {
    let f = full_rows(rows);
    let n = f.len() as int;
    if n == 0 {
        rows
    } else {
        rows.subrange(0, f[0]) + rows.subrange(f[0] + n, rows.len() as int) + Seq::new(
            n as nat,
            |k: int| empty_row(),
        )
    }
}

/// The full-row indices below `n` increase strictly and lie in `0..n`.
proof fn lemma_full_rows_upto(rows: Seq<Seq<CellState>>, n: nat)
    ensures
        forall|a: int|
            0 <= a < full_rows_upto(rows, n).len() ==> 0 <= #[trigger] full_rows_upto(rows, n)[a]
                < n,
        forall|a: int, b: int|
            0 <= a < b < full_rows_upto(rows, n).len() ==> #[trigger] full_rows_upto(rows, n)[a]
                < #[trigger] full_rows_upto(rows, n)[b],
        forall|a: int|
            0 <= a < full_rows_upto(rows, n).len() ==> row_full(
                rows[#[trigger] full_rows_upto(rows, n)[a]],
            ),
        forall|r: int| 0 <= r < n && row_full(rows[r]) ==> #[trigger] full_rows_upto(rows, n).contains(r),
    decreases n,
{
    if n > 0 {
        lemma_full_rows_upto(rows, (n - 1) as nat);
        let prev = full_rows_upto(rows, (n - 1) as nat);
        if row_full(rows[n - 1]) {
            assert(prev.push(n - 1)[prev.len() as int] == n - 1);
            assert forall|r: int| 0 <= r < n && row_full(rows[r]) implies #[trigger] prev.push(
                n - 1,
            ).contains(r) by {
                if r < n - 1 {
                    assert(prev.contains(r));
                    let x = choose|x: int| 0 <= x < prev.len() && prev[x] == r;
                    assert(prev.push(n - 1)[x] == r);
                }
            }
        }
    }
}

/// The full rows, counted from the lowest, lie `k` or more rows above it;
/// so the lowest full row plus their number does not pass `n`.
proof fn lemma_full_rows_span(rows: Seq<Seq<CellState>>, n: nat)
    requires
        full_rows_upto(rows, n).len() > 0,
    ensures
        full_rows_upto(rows, n)[0] + full_rows_upto(rows, n).len() <= n,
{
    let f = full_rows_upto(rows, n);
    lemma_full_rows_upto(rows, n);
    lemma_increasing_gap(f, f.len() - 1);
}

/// In a strictly increasing sequence of integers, entry `k` is at least
/// `k` above the first.
proof fn lemma_increasing_gap(f: Seq<int>, k: int)
    requires
        0 <= k < f.len(),
        forall|a: int, b: int| 0 <= a < b < f.len() ==> #[trigger] f[a] < #[trigger] f[b],
    ensures
        f[k] >= f[0] + k,
    decreases k,
{
    if k > 0 {
        lemma_increasing_gap(f, k - 1);
        assert(f[k - 1] < f[k]);
    }
}

/// Takes out the full rows (as [`cleared`] says) and lets the rows above
/// fall, adding empty rows at the top.
pub fn check_lines(grid: &mut Grid)
    requires
        old(grid).wf(),
    ensures
        final(grid).wf(),
        final(grid).rows() == cleared(old(grid).rows()),
{
    let ghost rows = grid.rows();
    let mut filled_rows: Vec<usize> = Vec::new();
    let mut row: usize = 0;
    while row < GRID_ROWS
        invariant
            row <= GRID_ROWS,
            grid.wf(),
            rows == grid.rows(),
            filled_rows@.map_values(|x: usize| x as int) == full_rows_upto(rows, row as nat),
        decreases GRID_ROWS - row,
    {
        let mut all = true;
        let mut col: usize = 0;
        while col < GRID_COLS
            invariant
                row < GRID_ROWS,
                col <= GRID_COLS,
                grid.wf(),
                rows == grid.rows(),
                all == (forall|c: int| 0 <= c < col ==> #[trigger] rows[row as int][c] != CellState::Empty),
            decreases GRID_COLS - col,
        {
            assert(rows[row as int][col as int] == grid.cells@[row as int]@[col as int]);
            match grid.cells[row][col] {
                CellState::Empty => {
                    all = false;
                },
                CellState::Filled(_) => {},
            }
            col = col + 1;
        }
        if all {
            let ghost prev = filled_rows@;
            filled_rows.push(row);
            assert(filled_rows@.map_values(|x: usize| x as int) =~= prev.map_values(
                |x: usize| x as int,
            ).push(row as int));
        }
        row = row + 1;
    }
    let ghost f = full_rows(rows);
    let n = filled_rows.len();
    assert(n == f.len());
    let ghost cells0 = grid.cells@;
    if n > 0 {
        let idx = filled_rows[0];
        assert(idx == f[0]);
        proof {
            lemma_full_rows_span(rows, GRID_ROWS as nat);
        }
        let mut m: usize = 0;
        while m < n
            invariant
                m <= n,
                idx + n <= GRID_ROWS,
                cells0.len() == GRID_ROWS,
                grid.cells@ == cells0.subrange(0, idx as int) + cells0.subrange(
                    idx + m,
                    GRID_ROWS as int,
                ),
            decreases n - m,
        {
            let ghost before = grid.cells@;
            grid.cells.remove(idx);
            assert(grid.cells@ =~= cells0.subrange(0, idx as int) + cells0.subrange(
                idx + m + 1,
                GRID_ROWS as int,
            ));
            m = m + 1;
        }
    }
    let ghost mid = grid.cells@;
    let mut m: usize = 0;
    while m < n
        invariant
            m <= n,
            grid.cells@.len() == mid.len() + m,
            forall|a: int| 0 <= a < mid.len() ==> #[trigger] grid.cells@[a] == mid[a],
            forall|a: int|
                mid.len() <= a < mid.len() + m ==> #[trigger] grid.cells@[a]@ == empty_row(),
        decreases n - m,
    {
        let mut empty: Vec<CellState> = Vec::new();
        let mut c: usize = 0;
        while c < GRID_COLS
            invariant
                c <= GRID_COLS,
                empty@.len() == c,
                forall|k: int| 0 <= k < c ==> #[trigger] empty@[k] == CellState::Empty,
            decreases GRID_COLS - c,
        {
            empty.push(CellState::Empty);
            c = c + 1;
        }
        assert(empty@ =~= empty_row());
        grid.cells.push(empty);
        m = m + 1;
    }
    assert(grid.rows() =~= cleared(rows));
}

/// What a visible cell shows.
#[derive(Clone, Copy, Debug, PartialEq, Eq, Structural)]
pub enum CellView {
    /// Nothing: the background.
    Background,
    /// A cell of the active block, in the colour of its kind.
    ActiveBlock(BlockLetter),
    /// A filled cell of the field, in the colour of the kind that filled it.
    Filled(BlockLetter),
}

/// What cell (`r`, `c`) shows: a filled cell shows its own kind; an empty
/// one shows the active block where that covers it, else the background.
pub open spec fn view_of(grid: Grid, active: Option<Block>, r: int, c: int) -> CellView {
    match grid.cell(r, c) {
        CellState::Filled(l) => CellView::Filled(l),
        CellState::Empty => match active {
            Some(b) => if covers(b, r, c) {
                CellView::ActiveBlock(b.letter)
            } else {
                CellView::Background
            },
            None => CellView::Background,
        },
    }
}

/// What each visible cell shows, row by row from the bottom.
pub fn visible_cells(grid: &Grid, active: &Option<Block>) -> (v: Vec<Vec<CellView>>)
    requires
        grid.wf(),
        active matches Some(b) ==> b.occupancy_fits((0isize, 0isize)),
    ensures
        v@.len() == GRID_ROWS,
        forall|r: int| 0 <= r < GRID_ROWS ==> #[trigger] v@[r]@.len() == GRID_COLS,
        forall|r: int, c: int|
            0 <= r < GRID_ROWS && 0 <= c < GRID_COLS ==> #[trigger] v@[r]@[c] == view_of(
                *grid,
                *active,
                r,
                c,
            ),
{
    let mut v: Vec<Vec<CellView>> = Vec::new();
    let mut r: usize = 0;
    while r < GRID_ROWS
        invariant
            r <= GRID_ROWS,
            grid.wf(),
            v@.len() == r,
            forall|a: int| 0 <= a < r ==> #[trigger] v@[a]@.len() == GRID_COLS,
            forall|a: int, c: int|
                0 <= a < r && 0 <= c < GRID_COLS ==> #[trigger] v@[a]@[c] == view_of(
                    *grid,
                    None,
                    a,
                    c,
                ),
        decreases GRID_ROWS - r,
    {
        let mut line: Vec<CellView> = Vec::new();
        let mut c: usize = 0;
        while c < GRID_COLS
            invariant
                r < GRID_ROWS,
                c <= GRID_COLS,
                grid.wf(),
                line@.len() == c,
                forall|k: int| 0 <= k < c ==> #[trigger] line@[k] == view_of(*grid, None, r as int, k),
            decreases GRID_COLS - c,
        {
            let shown = match grid.cells[r][c] {
                CellState::Filled(l) => CellView::Filled(l),
                CellState::Empty => CellView::Background,
            };
            line.push(shown);
            c = c + 1;
        }
        v.push(line);
        r = r + 1;
    }
    match active {
        None => {},
        Some(block) => {
            let mut i: usize = 0;
            while i < 4
                invariant
                    i <= 4,
                    grid.wf(),
                    block.occupancy_fits((0isize, 0isize)),
                    v@.len() == GRID_ROWS,
                    forall|a: int| 0 <= a < GRID_ROWS ==> #[trigger] v@[a]@.len() == GRID_COLS,
                    forall|a: int, c: int|
                        0 <= a < GRID_ROWS && 0 <= c < GRID_COLS ==> #[trigger] v@[a]@[c] == if covers(
                            *block,
                            a,
                            c,
                        ) && a - block.position.0 < i && grid.cell(a, c) == CellState::Empty {
                            CellView::ActiveBlock(block.letter)
                        } else {
                            view_of(*grid, None, a, c)
                        },
                decreases 4 - i,
            {
                let mut j: usize = 0;
                while j < 4
                    invariant
                        i < 4,
                        j <= 4,
                        grid.wf(),
                        block.occupancy_fits((0isize, 0isize)),
                        v@.len() == GRID_ROWS,
                        forall|a: int| 0 <= a < GRID_ROWS ==> #[trigger] v@[a]@.len() == GRID_COLS,
                        forall|a: int, c: int|
                            0 <= a < GRID_ROWS && 0 <= c < GRID_COLS ==> #[trigger] v@[a]@[c] == if covers(
                                *block,
                                a,
                                c,
                            ) && (a - block.position.0 < i || (a - block.position.0 == i && c
                                - block.position.1 < j)) && grid.cell(a, c) == CellState::Empty {
                                CellView::ActiveBlock(block.letter)
                            } else {
                                view_of(*grid, None, a, c)
                            },
                    decreases 4 - j,
                {
                    if block.shape[i][j] {
                        assert(block.filled(i as int, j as int));
                        let row = block.position.0 + i as isize;
                        let col = block.position.1 + j as isize;
                        if 0 <= row && row < GRID_ROWS as isize && 0 <= col && col < GRID_COLS as isize {
                            let empty = match grid.cells[row as usize][col as usize] {
                                CellState::Empty => true,
                                CellState::Filled(_) => false,
                            };
                            if empty {
                                let ghost before = v@;
                                v[row as usize][col as usize] = CellView::ActiveBlock(block.letter);
                                assert(forall|a: int| 0 <= a < GRID_ROWS && a != row ==> #[trigger] v@[a]
                                    == before[a]);
                            }
                        }
                    }
                    j = j + 1;
                }
                i = i + 1;
            }
        },
    }
    v
}

/// No key press moves or turns a block that overlaps nothing onto an
/// occupied cell or past a wall.
pub proof fn moves_keep_block_clear(grid: Grid, b: Block, k: Key)
    requires
        b.wf(),
        !hits(grid, b, b.position.0 as int, b.position.1 as int),
    ensures
        ({
            let a = after_key(grid, b, k);
            !hits(grid, a, a.position.0 as int, a.position.1 as int)
        }),
{
    let a = after_key(grid, b, k);
    lemma_after_key_wf(grid, b, k);
    if k != Key::ArrowUp {
        lemma_hits_same_shape(grid, a, b, a.position.0 as int, a.position.1 as int);
    }
    if k == Key::Space {
        lemma_landing_row(grid, b, b.position.0 as int);
    }
}

/// After a drop the block rests: pressing down moves it no further.
pub proof fn dropped_block_rests(grid: Grid, b: Block)
    requires
        b.wf(),
    ensures
        after_key(grid, after_key(grid, b, Key::Space), Key::ArrowDown) == after_key(
            grid,
            b,
            Key::Space,
        ),
{
    let d = after_key(grid, b, Key::Space);
    let r = landing_row(grid, b, b.position.0 as int);
    lemma_after_key_wf(grid, b, Key::Space);
    lemma_landing_row(grid, b, b.position.0 as int);
    lemma_landing_rests(grid, b, b.position.0 as int);
    lemma_hits_same_shape(grid, d, b, r - 1, b.position.1 as int);
}

/// Where a drop of a non-empty mask ends, the row below is taken.
proof fn lemma_landing_rests(grid: Grid, b: Block, row: int)
    requires
        b.has_cell(),
    ensures
        hits(grid, b, landing_row(grid, b, row) - 1, b.position.1 as int),
    decreases row + 4,
{
    if row <= -4 {
        let (i, j) = choose|i: int, j: int| #[trigger] b.filled(i, j);
        assert(grid.occupied(row - 1 + i, b.position.1 + j));
    } else if !hits(grid, b, row - 1, b.position.1 as int) {
        lemma_landing_rests(grid, b, row - 1);
    }
}

/// A step right that is free, followed by a step left, brings a block that
/// overlaps nothing back where it was.
pub proof fn right_then_left_returns(grid: Grid, b: Block)
    requires
        b.wf(),
        !hits(grid, b, b.position.0 as int, b.position.1 as int),
        !hits(grid, b, b.position.0 as int, b.position.1 + 1),
    ensures
        after_keys(grid, b, seq![Key::ArrowRight, Key::ArrowLeft]) == b,
{
    let ks = seq![Key::ArrowRight, Key::ArrowLeft];
    assert(ks.drop_last() =~= seq![Key::ArrowRight]);
    assert(ks.drop_last().drop_last() =~= Seq::<Key>::empty());
    reveal_with_fuel(after_keys, 3);
    let r = after_key(grid, b, Key::ArrowRight);
    assert(r == placed(b, b.position.0 as int, b.position.1 + 1));
    lemma_hits_same_shape(grid, r, b, b.position.0 as int, b.position.1 as int);
    assert(after_keys(grid, b, ks.drop_last()) == r);
    assert(after_key(grid, r, Key::ArrowLeft) == b);
}

/// Four presses of the rotation key give back a block whose mask touches
/// the bottom-left corner, as every newly created block's does, when each
/// of the turned masks is free where it stands.
pub proof fn four_turns_restore(grid: Grid, b: Block)
    requires
        in_corner(b.shape),
        !hits(grid, b, b.position.0 as int, b.position.1 as int),
        !hits(grid, turned_block(b), b.position.0 as int, b.position.1 as int),
        !hits(grid, turned_block(turned_block(b)), b.position.0 as int, b.position.1 as int),
        !hits(
            grid,
            turned_block(turned_block(turned_block(b))),
            b.position.0 as int,
            b.position.1 as int,
        ),
    ensures
        after_keys(grid, b, seq![Key::ArrowUp, Key::ArrowUp, Key::ArrowUp, Key::ArrowUp]) == b,
{
    let ks = seq![Key::ArrowUp, Key::ArrowUp, Key::ArrowUp, Key::ArrowUp];
    assert(ks.drop_last() =~= seq![Key::ArrowUp, Key::ArrowUp, Key::ArrowUp]);
    assert(ks.drop_last().drop_last() =~= seq![Key::ArrowUp, Key::ArrowUp]);
    assert(ks.drop_last().drop_last().drop_last() =~= seq![Key::ArrowUp]);
    assert(ks.drop_last().drop_last().drop_last().drop_last() =~= Seq::<Key>::empty());
    reveal_with_fuel(after_keys, 5);
    four_rotations_restore(b.shape);
    let b1 = turned_block(b);
    let b2 = turned_block(b1);
    let b3 = turned_block(b2);
    assert(after_keys(grid, b, ks.drop_last().drop_last().drop_last()) == b1);
    assert(after_keys(grid, b, ks.drop_last().drop_last()) == b2);
    assert(after_keys(grid, b, ks.drop_last()) == b3);
    assert(turned_block(b3) == b);
}

/// A newly created block overlaps nothing, whatever the field holds, and
/// lies between the walls.
pub proof fn fresh_block_starts_clear(grid: Grid, b: Block, l: BlockLetter)
    requires
        fresh_block(b, l),
    ensures
        !hits(grid, b, b.position.0 as int, b.position.1 as int),
        lockable(b),
{
    assert forall|i: int, j: int| #[trigger] b.filled(i, j) implies !grid.occupied(
        b.position.0 + i,
        b.position.1 + j,
    ) by {
        assert(b.shape[i][j] == letter_shape(l, i, j));
    }
    assert forall|i: int, j: int|
        #[trigger] b.filled(i, j) && 0 <= b.position.0 + i < GRID_ROWS implies 0 <= b.position.1 + j
        < GRID_COLS by {
        assert(b.shape[i][j] == letter_shape(l, i, j));
    }
}

/// The rows of a well-formed field.
pub open spec fn rows_wf(rows: Seq<Seq<CellState>>) -> bool {
    &&& rows.len() == GRID_ROWS
    &&& forall|r: int| 0 <= r < GRID_ROWS ==> #[trigger] rows[r].len() == GRID_COLS
}

/// A line check keeps the shape of the field; when the full rows lie next
/// to each other, none is left afterwards.
pub proof fn contiguous_full_rows_cleared(rows: Seq<Seq<CellState>>)
    requires
        rows_wf(rows),
        forall|k: int|
            0 <= k < full_rows(rows).len() ==> #[trigger] full_rows(rows)[k] == full_rows(rows)[0]
                + k,
    ensures
        rows_wf(cleared(rows)),
        full_rows(cleared(rows)).len() == 0,
{
    let f = full_rows(rows);
    let n = f.len() as int;
    let out = cleared(rows);
    lemma_full_rows_upto(rows, GRID_ROWS as nat);
    if n > 0 {
        lemma_full_rows_span(rows, GRID_ROWS as nat);
    }
    assert forall|r: int| 0 <= r < GRID_ROWS implies #[trigger] out[r].len() == GRID_COLS by {}
    lemma_full_rows_upto(out, GRID_ROWS as nat);
    if full_rows(out).len() > 0 {
        let r = full_rows(out)[0];
        assert(row_full(out[r]));
        if n == 0 {
            assert(full_rows(rows).contains(r));
        } else if r < f[0] {
            assert(out[r] == rows[r]);
            assert(full_rows(rows).contains(r));
            let x = choose|x: int| 0 <= x < n && f[x] == r;
            assert(f[x] >= f[0]);
        } else if r < GRID_ROWS - n {
            assert(out[r] == rows[r + n]);
            assert(full_rows(rows).contains(r + n));
            let x = choose|x: int| 0 <= x < n && f[x] == r + n;
        } else {
            assert(out[r] == empty_row());
            assert(out[r][0] == CellState::Empty);
        }
    }
}

/// The number of ticks after which `b`, left alone, is written into the
/// field: it falls one row per tick down to its landing row, and the next
/// tick locks it.
pub open spec fn ticks_to_lock(grid: Grid, b: Block) -> int {
    b.position.0 - landing_row(grid, b, b.position.0 as int) + 1
}

/// On the way from `row` down to the landing row, every row below is free.
proof fn lemma_landing_path(grid: Grid, b: Block, row: int)
    ensures
        forall|k: int|
            landing_row(grid, b, row) < k <= row ==> !#[trigger] hits(
                grid,
                b,
                k - 1,
                b.position.1 as int,
            ),
    decreases row + 4,
{
    if !(row <= -4 || hits(grid, b, row - 1, b.position.1 as int)) {
        lemma_landing_path(grid, b, row - 1);
    }
}

/// A drop from `row` ends at `m` when every row from `m` up to below `row`
/// is free and the row below `m` is taken.
proof fn lemma_landing_at(grid: Grid, b: Block, row: int, m: int)
    requires
        m <= row,
        hits(grid, b, m - 1, b.position.1 as int),
        forall|k: int| m < k <= row ==> !#[trigger] hits(grid, b, k - 1, b.position.1 as int),
    ensures
        landing_row(grid, b, row) == m,
    decreases row - m,
{
    if row > m {
        assert(!hits(grid, b, row - 1, b.position.1 as int));
        lemma_landing_at(grid, b, row - 1, m);
    }
}

/// A block left alone falls at each of its first `ticks_to_lock - 1` ticks
/// and is locked at the next one.
pub proof fn left_alone_block_locks(grid: Grid, b: Block)
    requires
        b.has_cell(),
    ensures
        ticks_to_lock(grid, b) >= 1,
        forall|n: int|
            0 <= n < ticks_to_lock(grid, b) - 1 ==> !#[trigger] hits(
                grid,
                b,
                b.position.0 - n - 1,
                b.position.1 as int,
            ),
        hits(grid, b, b.position.0 - ticks_to_lock(grid, b), b.position.1 as int),
{
    let row = b.position.0 as int;
    lemma_landing_row(grid, b, row);
    lemma_landing_rests(grid, b, row);
    lemma_landing_path(grid, b, row);
    assert forall|n: int| 0 <= n < ticks_to_lock(grid, b) - 1 implies !#[trigger] hits(
        grid,
        b,
        b.position.0 - n - 1,
        b.position.1 as int,
    ) by {
        let k = row - n;
        assert(!hits(grid, b, k - 1, b.position.1 as int));
    }
}

/// A newly created block is locked at the latest at the 21st tick that
/// finds it; on an empty field exactly then, resting on row 0.
pub proof fn fresh_block_locks_within(grid: Grid, b: Block, l: BlockLetter)
    requires
        fresh_block(b, l),
    ensures
        1 <= ticks_to_lock(grid, b) <= GRID_ROWS + 1,
        (forall|r: int, c: int|
            0 <= r < GRID_ROWS && 0 <= c < GRID_COLS ==> #[trigger] grid.cell(r, c)
                == CellState::Empty) ==> ticks_to_lock(grid, b) == GRID_ROWS + 1 && landing_row(
            grid,
            b,
            b.position.0 as int,
        ) == 0,
{
    let row = b.position.0 as int;
    let col = b.position.1 as int;
    assert(row == GRID_ROWS);
    assert forall|i: int, j: int| 0 <= i < 4 && 0 <= j < 4 implies #[trigger] b.shape[i][j]
        == letter_shape(b.letter, i, j) by {}
    fresh_shapes_touch_corner(b);
    let j0: int = if b.shape[0][0] {
        0
    } else if b.shape[0][1] {
        1
    } else if b.shape[0][2] {
        2
    } else {
        3
    };
    assert(b.filled(0, j0));
    lemma_landing_row(grid, b, row);
    let m = landing_row(grid, b, row);
    if m < row {
        assert(!grid.occupied(m + 0, col + j0));
    }
    if forall|r: int, c: int|
        0 <= r < GRID_ROWS && 0 <= c < GRID_COLS ==> #[trigger] grid.cell(r, c) == CellState::Empty {
        assert(grid.occupied(-1, col + j0));
        assert(hits(grid, b, 0 - 1, col));
        assert forall|k: int| 0 < k <= row implies !#[trigger] hits(grid, b, k - 1, col) by {
            assert forall|i: int, j: int| #[trigger] b.filled(i, j) implies !grid.occupied(
                k - 1 + i,
                col + j,
            ) by {
                assert(b.shape[i][j] == letter_shape(l, i, j));
            }
        }
        lemma_landing_at(grid, b, row, 0);
    }
}

/// The number of filled cells of a row.
pub open spec fn filled_in_row(row: Seq<CellState>) -> int
    decreases row.len(),
{
    if row.len() == 0 {
        0
    } else {
        filled_in_row(row.drop_last()) + if row.last() != CellState::Empty {
            1int
        } else {
            0int
        }
    }
}

/// The number of filled cells of a sequence of rows.
pub open spec fn filled_in_rows(rows: Seq<Seq<CellState>>) -> int
    decreases rows.len(),
{
    if rows.len() == 0 {
        0
    } else {
        filled_in_rows(rows.drop_last()) + filled_in_row(rows.last())
    }
}

/// Filled cells of stacked rows add up.
proof fn lemma_filled_in_rows_concat(a: Seq<Seq<CellState>>, b: Seq<Seq<CellState>>)
    ensures
        filled_in_rows(a + b) == filled_in_rows(a) + filled_in_rows(b),
    decreases b.len(),
{
    if b.len() > 0 {
        lemma_filled_in_rows_concat(a, b.drop_last());
        assert((a + b).drop_last() =~= a + b.drop_last());
    } else {
        assert(a + b =~= a);
    }
}

/// A row whose cells are all filled counts all of them; one whose cells are
/// all empty counts none.
proof fn lemma_filled_in_row_uniform(row: Seq<CellState>)
    ensures
        (forall|c: int| 0 <= c < row.len() ==> #[trigger] row[c] != CellState::Empty)
            ==> filled_in_row(row) == row.len(),
        (forall|c: int| 0 <= c < row.len() ==> #[trigger] row[c] == CellState::Empty)
            ==> filled_in_row(row) == 0,
    decreases row.len(),
{
    if row.len() > 0 {
        lemma_filled_in_row_uniform(row.drop_last());
        assert(row.last() == row[row.len() - 1]);
    }
}

/// Rows that are all full count `GRID_COLS` cells each; empty rows count none.
proof fn lemma_filled_in_uniform_rows(rows: Seq<Seq<CellState>>, full: bool)
    requires
        forall|k: int|
            0 <= k < rows.len() ==> #[trigger] rows[k].len() == GRID_COLS && if full {
                row_full(rows[k])
            } else {
                rows[k] == empty_row()
            },
    ensures
        filled_in_rows(rows) == if full {
            GRID_COLS * rows.len()
        } else {
            0
        },
    decreases rows.len(),
{
    if rows.len() > 0 {
        let last = rows.last();
        assert(last == rows[rows.len() - 1]);
        lemma_filled_in_uniform_rows(rows.drop_last(), full);
        lemma_filled_in_row_uniform(last);
        if !full {
            assert forall|c: int| 0 <= c < last.len() implies #[trigger] last[c]
                == CellState::Empty by {}
        }
    }
}

/// A line check takes exactly the cells of the full rows out of the field
/// when the full rows lie next to each other.
pub proof fn cleared_rows_lose_their_cells(rows: Seq<Seq<CellState>>)
    requires
        rows_wf(rows),
        forall|k: int|
            0 <= k < full_rows(rows).len() ==> #[trigger] full_rows(rows)[k] == full_rows(rows)[0]
                + k,
    ensures
        filled_in_rows(cleared(rows)) == filled_in_rows(rows) - GRID_COLS * full_rows(rows).len(),
{
    let f = full_rows(rows);
    let n = f.len() as int;
    if n > 0 {
        lemma_full_rows_upto(rows, GRID_ROWS as nat);
        lemma_full_rows_span(rows, GRID_ROWS as nat);
        let f0 = f[0];
        let a = rows.subrange(0, f0);
        let m = rows.subrange(f0, f0 + n);
        let b = rows.subrange(f0 + n, rows.len() as int);
        let e = Seq::new(n as nat, |k: int| empty_row());
        assert(rows =~= a + m + b);
        assert(cleared(rows) =~= a + b + e);
        lemma_filled_in_rows_concat(a + m, b);
        lemma_filled_in_rows_concat(a, m);
        lemma_filled_in_rows_concat(a + b, e);
        lemma_filled_in_rows_concat(a, b);
        assert forall|k: int| 0 <= k < m.len() implies #[trigger] m[k].len() == GRID_COLS && row_full(
            m[k],
        ) by {
            assert(m[k] == rows[f[k]]);
        }
        lemma_filled_in_uniform_rows(m, true);
        assert forall|k: int| 0 <= k < e.len() implies #[trigger] e[k].len() == GRID_COLS && e[k]
            == empty_row() by {}
        lemma_filled_in_uniform_rows(e, false);
    }
}

/// An empty visible cell shows the active block exactly where a filled cell
/// of its mask lands (cell (`i`, `j`) of the mask at row `position.0 + i`,
/// column `position.1 + j`): the cells that `next_occupancy` lists for no
/// move, and the cells that locking the block would fill. Elsewhere it shows
/// the background.
pub proof fn active_block_shows_where_it_stands(grid: Grid, b: Block, after: Grid, r: int, c: int)
    requires
        0 <= r < GRID_ROWS,
        0 <= c < GRID_COLS,
        grid.cell(r, c) == CellState::Empty,
        locked_into(grid, after, b),
    ensures
        (view_of(grid, Some(b), r, c) == CellView::ActiveBlock(b.letter)) <==> (exists|i: int, j: int|
            0 <= i < 4 && 0 <= j < 4 && #[trigger] b.shape[i][j] && r == b.position.0 + i && c
                == b.position.1 + j),
        (view_of(grid, Some(b), r, c) == CellView::ActiveBlock(b.letter)) <==> b.occupancy(
            (0isize, 0isize),
        ).contains((r, c)),
        (view_of(grid, Some(b), r, c) == CellView::ActiveBlock(b.letter)) <==> after.cell(r, c)
            == CellState::Filled(b.letter),
        view_of(grid, Some(b), r, c) == CellView::ActiveBlock(b.letter) || view_of(
            grid,
            Some(b),
            r,
            c,
        ) == CellView::Background,
{
    b.lemma_occupancy_contains((0isize, 0isize), (r, c));
    let i0 = r - b.position.0;
    let j0 = c - b.position.1;
    if b.filled(i0, j0) {
        assert(b.shape[i0][j0]);
    }
    if exists|i: int, j: int|
        0 <= i < 4 && 0 <= j < 4 && #[trigger] b.shape[i][j] && r == b.position.0 + i && c
            == b.position.1 + j {
        let (i, j) = choose|i: int, j: int|
            0 <= i < 4 && 0 <= j < 4 && #[trigger] b.shape[i][j] && r == b.position.0 + i && c
                == b.position.1 + j;
        assert(b.filled(i, j));
    }
    if b.occupancy((0isize, 0isize)).contains((r, c)) {
        let (i, j) = choose|i: int, j: int|
            #![trigger b.filled(i, j)]
            b.filled(i, j) && (r, c) == (b.position.0 + i + 0isize, b.position.1 + j + 0isize);
        assert(b.filled(i, j));
    }
}

/// The full rows of the field are exactly the visible rows none of whose
/// `GRID_COLS` cells is empty, listed from the bottom up.
pub proof fn full_rows_are_the_complete_rows(rows: Seq<Seq<CellState>>)
    ensures
        forall|r: int|
            #[trigger] full_rows(rows).contains(r) <==> (0 <= r < GRID_ROWS && forall|c: int|
                0 <= c < GRID_COLS ==> #[trigger] rows[r][c] != CellState::Empty),
        forall|a: int, b: int|
            0 <= a < b < full_rows(rows).len() ==> #[trigger] full_rows(rows)[a]
                < #[trigger] full_rows(rows)[b],
{
    let f = full_rows(rows);
    lemma_full_rows_upto(rows, GRID_ROWS as nat);
    assert forall|r: int|
        #[trigger] f.contains(r) implies (0 <= r < GRID_ROWS && forall|c: int|
        0 <= c < GRID_COLS ==> #[trigger] rows[r][c] != CellState::Empty) by {
        let x = choose|x: int| 0 <= x < f.len() && f[x] == r;
        assert(row_full(rows[f[x]]));
    }
    assert forall|r: int|
        (0 <= r < GRID_ROWS && forall|c: int|
            0 <= c < GRID_COLS ==> #[trigger] rows[r][c] != CellState::Empty) implies #[trigger] f.contains(r) by {
        assert(row_full(rows[r]));
    }
}

} // verus!

use vstd::prelude::*;
use crate::components::CellState;

verus! {

/// Number of columns of the field.
pub const GRID_COLS: usize = 10;

/// Number of visible rows of the field.
pub const GRID_ROWS: usize = 20;

/// Rows kept above the visible field.
pub const GRID_HIDDEN_ROWS: usize = 6;

/// The playing field as one flat vector, row by row from the bottom: cell
/// (`row`, `col`) is `cells[row * GRID_COLS + col]`, hidden rows included.
pub struct Grid {
    pub cells: Vec<CellState>,
}

/// Number of cells of the flat field, hidden rows included.
pub open spec fn cell_count() -> int {
    GRID_COLS * (GRID_ROWS + GRID_HIDDEN_ROWS)
}

/// Row `row` of the flat field `cells` is full: none of its cells is empty.
pub open spec fn flat_row_full(cells: Seq<CellState>, row: int) -> bool {
    forall|c: int| 0 <= c < GRID_COLS ==> #[trigger] cells[row * GRID_COLS + c] != CellState::Empty
}

/// The indices below `n` of full rows, in increasing order.
pub open spec fn flat_full_rows_upto(cells: Seq<CellState>, n: nat) -> Seq<int>
    decreases n,
{
    if n == 0 {
        Seq::empty()
    } else {
        let prev = flat_full_rows_upto(cells, (n - 1) as nat);
        if flat_row_full(cells, n - 1) {
            prev.push(n - 1)
        } else {
            prev
        }
    }
}

/// The indices of the full visible rows, in increasing order.
pub open spec fn flat_full_rows(cells: Seq<CellState>) -> Seq<int> {
    flat_full_rows_upto(cells, GRID_ROWS as nat)
}

/// Row `r` of the flat field `cells`.
pub open spec fn flat_row(cells: Seq<CellState>, r: int) -> Seq<CellState> {
    cells.subrange(r * GRID_COLS, (r + 1) * GRID_COLS)
}

/// Rows below `n` of `cells` that are not full visible rows, bottom up,
/// one after another.
pub open spec fn kept_upto(cells: Seq<CellState>, n: nat) -> Seq<CellState>
    decreases n,
{
    if n == 0 {
        Seq::empty()
    } else {
        let r = n - 1;
        let prev = kept_upto(cells, (n - 1) as nat);
        if r < GRID_ROWS && flat_row_full(cells, r) {
            prev
        } else {
            prev + flat_row(cells, r)
        }
    }
}

/// All rows of `cells`, hidden ones included, that are not full visible
/// rows, bottom up.
pub open spec fn kept_rows(cells: Seq<CellState>) -> Seq<CellState> {
    kept_upto(cells, (GRID_ROWS + GRID_HIDDEN_ROWS) as nat)
}

impl Grid {
    /// The field holds all its rows, hidden ones included.
    pub open spec fn wf(&self) -> bool {
        self.cells@.len() == cell_count()
    }

    /// An empty field.
    pub fn new() -> (g: Self)
        ensures
            g.wf(),
            forall|k: int| 0 <= k < cell_count() ==> #[trigger] g.cells@[k] == CellState::Empty,
    {
        let mut cells: Vec<CellState> = Vec::new();
        let total: usize = GRID_COLS * (GRID_ROWS + GRID_HIDDEN_ROWS);
        let mut k: usize = 0;
        while k < total
            invariant
                total == cell_count(),
                k <= total,
                cells@.len() == k,
                forall|m: int| 0 <= m < k ==> #[trigger] cells@[m] == CellState::Empty,
            decreases total - k,
        {
            cells.push(CellState::Empty);
            k = k + 1;
        }
        Grid { cells }
    }

    /// The indices of the full visible rows, in increasing order.
    pub fn full_rows(&self) -> (rows: Vec<usize>)
        requires
            self.wf(),
        ensures
            rows@.map_values(|r: usize| r as int) == flat_full_rows(self.cells@),
    {
        let mut rows: Vec<usize> = Vec::new();
        let mut row: usize = 0;
        while row < GRID_ROWS
            invariant
                row <= GRID_ROWS,
                self.wf(),
                rows@.map_values(|r: usize| r as int) == flat_full_rows_upto(self.cells@, row as nat),
            decreases GRID_ROWS - row,
        {
            let mut all = true;
            let mut col: usize = 0;
            while col < GRID_COLS
                invariant
                    row < GRID_ROWS,
                    col <= GRID_COLS,
                    self.wf(),
                    all == (forall|c: int|
                        0 <= c < col ==> #[trigger] self.cells@[row * GRID_COLS + c]
                            != CellState::Empty),
                decreases GRID_COLS - col,
            {
                match self.cells[row * GRID_COLS + col] {
                    CellState::Empty => {
                        all = false;
                    },
                    CellState::Filled(_) => {},
                }
                col = col + 1;
            }
            if all {
                let ghost prev = rows@;
                rows.push(row);
                assert(rows@.map_values(|r: usize| r as int) =~= prev.map_values(
                    |r: usize| r as int,
                ).push(row as int));
            }
            row = row + 1;
        }
        rows
    }
}

/// Drains the full visible rows: the other rows keep their order and slide
/// down, and as many empty rows come in at the top.
pub fn check_lines(grid: &mut Grid)
    requires
        old(grid).wf(),
    ensures
        final(grid).wf(),
        final(grid).cells@ == kept_rows(old(grid).cells@) + Seq::new(
            (flat_full_rows(old(grid).cells@).len() * GRID_COLS) as nat,
            |k: int| CellState::Empty,
        ),
{
    let ghost cells0 = grid.cells@;
    let mut kept: Vec<CellState> = Vec::new();
    let mut removed: usize = 0;
    let mut r: usize = 0;
    while r < GRID_ROWS + GRID_HIDDEN_ROWS
        invariant
            r <= GRID_ROWS + GRID_HIDDEN_ROWS,
            grid.cells@ == cells0,
            grid.wf(),
            kept@ == kept_upto(cells0, r as nat),
            removed == flat_full_rows_upto(cells0, if r <= GRID_ROWS { r as nat } else { GRID_ROWS as nat }).len(),
            removed <= r,
            kept@.len() == GRID_COLS * (r - removed),
        decreases GRID_ROWS + GRID_HIDDEN_ROWS - r,
    {
        let mut full = r < GRID_ROWS;
        if full {
            let mut col: usize = 0;
            while col < GRID_COLS
                invariant
                    r < GRID_ROWS,
                    col <= GRID_COLS,
                    grid.wf(),
                    full == (forall|c: int|
                        0 <= c < col ==> #[trigger] grid.cells@[r * GRID_COLS + c]
                            != CellState::Empty),
                decreases GRID_COLS - col,
            {
                match grid.cells[r * GRID_COLS + col] {
                    CellState::Empty => {
                        full = false;
                    },
                    CellState::Filled(_) => {},
                }
                col = col + 1;
            }
        }
        assert(full == (r < GRID_ROWS && flat_row_full(cells0, r as int)));
        if full {
            removed = removed + 1;
        } else {
            let ghost before = kept@;
            let mut c: usize = 0;
            while c < GRID_COLS
                invariant
                    r < GRID_ROWS + GRID_HIDDEN_ROWS,
                    c <= GRID_COLS,
                    grid.cells@ == cells0,
                    grid.wf(),
                    kept@ == before + cells0.subrange(r * GRID_COLS, r * GRID_COLS + c),
                decreases GRID_COLS - c,
            {
                kept.push(grid.cells[r * GRID_COLS + c]);
                assert(kept@ =~= before + cells0.subrange(r * GRID_COLS, r * GRID_COLS + c + 1));
                c = c + 1;
            }
        }
        r = r + 1;
    }
    let ghost mid = kept@;
    let extra: usize = removed * GRID_COLS;
    let mut m: usize = 0;
    while m < extra
        invariant
            m <= extra,
            kept@ == mid + Seq::new(m as nat, |k: int| CellState::Empty),
        decreases extra - m,
    {
        kept.push(CellState::Empty);
        assert(kept@ =~= mid + Seq::new((m + 1) as nat, |k: int| CellState::Empty));
        m = m + 1;
    }
    grid.cells = kept;
}

/// The number of filled cells of a stretch of the flat field.
pub open spec fn filled_cells_in(cells: Seq<CellState>) -> int
    decreases cells.len(),
{
    if cells.len() == 0 {
        0
    } else {
        filled_cells_in(cells.drop_last()) + if cells.last() != CellState::Empty {
            1int
        } else {
            0int
        }
    }
}

/// Filled cells of stretches laid end to end add up.
proof fn lemma_filled_cells_concat(a: Seq<CellState>, b: Seq<CellState>)
    ensures
        filled_cells_in(a + b) == filled_cells_in(a) + filled_cells_in(b),
    decreases b.len(),
{
    if b.len() > 0 {
        lemma_filled_cells_concat(a, b.drop_last());
        assert((a + b).drop_last() =~= a + b.drop_last());
    } else {
        assert(a + b =~= a);
    }
}

/// A stretch with no empty cell counts all its cells; one with only empty
/// cells counts none.
proof fn lemma_filled_cells_uniform(cells: Seq<CellState>)
    ensures
        (forall|k: int| 0 <= k < cells.len() ==> #[trigger] cells[k] != CellState::Empty)
            ==> filled_cells_in(cells) == cells.len(),
        (forall|k: int| 0 <= k < cells.len() ==> #[trigger] cells[k] == CellState::Empty)
            ==> filled_cells_in(cells) == 0,
    decreases cells.len(),
{
    if cells.len() > 0 {
        lemma_filled_cells_uniform(cells.drop_last());
        assert(cells.last() == cells[cells.len() - 1]);
    }
}

proof fn lemma_full_rows_upto_complete(cells: Seq<CellState>, n: nat)
    requires
        n <= GRID_ROWS,
    ensures
        forall|r: int|
            #[trigger] flat_full_rows_upto(cells, n).contains(r) <==> (0 <= r < n && forall|c: int|
                0 <= c < GRID_COLS ==> #[trigger] cells[r * GRID_COLS + c] != CellState::Empty),
        forall|a: int, b: int|
            0 <= a < b < flat_full_rows_upto(cells, n).len() ==> #[trigger] flat_full_rows_upto(
                cells,
                n,
            )[a] < #[trigger] flat_full_rows_upto(cells, n)[b],
        forall|a: int|
            0 <= a < flat_full_rows_upto(cells, n).len() ==> 0 <= #[trigger] flat_full_rows_upto(
                cells,
                n,
            )[a] < n,
    decreases n,
{
    if n > 0 {
        lemma_full_rows_upto_complete(cells, (n - 1) as nat);
        let prev = flat_full_rows_upto(cells, (n - 1) as nat);
        let k = n - 1;
        if flat_row_full(cells, k) {
            let cur = prev.push(k);
            assert(cur[prev.len() as int] == k);
            assert forall|r: int| #[trigger] cur.contains(r) <==> (0 <= r < n && forall|c: int|
                0 <= c < GRID_COLS ==> #[trigger] cells[r * GRID_COLS + c] != CellState::Empty) by {
                if cur.contains(r) && r != k {
                    let x = choose|x: int| 0 <= x < cur.len() && cur[x] == r;
                    assert(prev[x] == r);
                    assert(prev.contains(r));
                }
                if prev.contains(r) {
                    let x = choose|x: int| 0 <= x < prev.len() && prev[x] == r;
                    assert(cur[x] == r);
                }
                if r == k && 0 <= r < n {
                    assert forall|c: int| 0 <= c < GRID_COLS implies #[trigger] cells[r * GRID_COLS + c]
                        != CellState::Empty by {
                        assert(cells[k * GRID_COLS + c] != CellState::Empty);
                    }
                }
            }
        } else {
            assert forall|r: int| #[trigger] prev.contains(r) <==> (0 <= r < n && forall|c: int|
                0 <= c < GRID_COLS ==> #[trigger] cells[r * GRID_COLS + c] != CellState::Empty) by {
                if r == k && (forall|c: int|
                    0 <= c < GRID_COLS ==> #[trigger] cells[r * GRID_COLS + c] != CellState::Empty) {
                    assert(flat_row_full(cells, k));
                }
            }
        }
    }
}

/// The full rows of the flat field are exactly the visible rows none of
/// whose `GRID_COLS` cells is empty, listed from the bottom up.
pub proof fn full_rows_are_the_complete_rows(cells: Seq<CellState>)
    ensures
        forall|r: int|
            #[trigger] flat_full_rows(cells).contains(r) <==> (0 <= r < GRID_ROWS && forall|c: int|
                0 <= c < GRID_COLS ==> #[trigger] cells[r * GRID_COLS + c] != CellState::Empty),
        forall|a: int, b: int|
            0 <= a < b < flat_full_rows(cells).len() ==> #[trigger] flat_full_rows(cells)[a]
                < #[trigger] flat_full_rows(cells)[b],
{
    lemma_full_rows_upto_complete(cells, GRID_ROWS as nat);
}

proof fn lemma_kept_upto_count(cells: Seq<CellState>, n: nat)
    requires
        cells.len() == cell_count(),
        n <= GRID_ROWS + GRID_HIDDEN_ROWS,
    ensures
        filled_cells_in(kept_upto(cells, n)) == filled_cells_in(cells.subrange(0, n * GRID_COLS))
            - GRID_COLS * flat_full_rows_upto(
            cells,
            if n <= GRID_ROWS {
                n
            } else {
                GRID_ROWS as nat
            },
        ).len(),
        kept_upto(cells, n).len() == GRID_COLS * (n - flat_full_rows_upto(
            cells,
            if n <= GRID_ROWS {
                n
            } else {
                GRID_ROWS as nat
            },
        ).len()),
    decreases n,
{
    if n == 0 {
        assert(cells.subrange(0, 0) =~= Seq::<CellState>::empty());
    } else {
        let r = n - 1;
        lemma_kept_upto_count(cells, r as nat);
        let row = flat_row(cells, r);
        assert(cells.subrange(0, n * GRID_COLS) =~= cells.subrange(0, r * GRID_COLS) + row);
        lemma_filled_cells_concat(cells.subrange(0, r * GRID_COLS), row);
        lemma_filled_cells_concat(kept_upto(cells, r as nat), row);
        if r < GRID_ROWS && flat_row_full(cells, r) {
            assert forall|k: int| 0 <= k < row.len() implies #[trigger] row[k] != CellState::Empty by {
                assert(row[k] == cells[r * GRID_COLS + k]);
            }
            lemma_filled_cells_uniform(row);
        }
    }
}

/// A line check takes out of the flat field exactly `GRID_COLS` filled
/// cells for each full row, keeps its size, and adds only empty cells.
pub proof fn drained_rows_lose_their_cells(cells: Seq<CellState>)
    requires
        cells.len() == cell_count(),
    ensures
        ({
            let n = flat_full_rows(cells).len();
            let after = kept_rows(cells) + Seq::new((n * GRID_COLS) as nat, |k: int| CellState::Empty);
            &&& after.len() == cell_count()
            &&& filled_cells_in(after) == filled_cells_in(cells) - GRID_COLS * n
        }),
{
    let n = flat_full_rows(cells).len();
    let e = Seq::new((n * GRID_COLS) as nat, |k: int| CellState::Empty);
    lemma_kept_upto_count(cells, (GRID_ROWS + GRID_HIDDEN_ROWS) as nat);
    assert(cells.subrange(0, cell_count()) =~= cells);
    lemma_filled_cells_concat(kept_rows(cells), e);
    lemma_filled_cells_uniform(e);
}

} // verus!

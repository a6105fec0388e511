//! The mathematical model of one player's grid.
//!
//! A grid is a sequence of thirteen rows of six cells. Row 0 is the guard row
//! at the top, row 12 is the floor. A cell holds `EMPTY`, `GARBAGE`, or one of
//! the five colors `1..=5`.

use vstd::prelude::*;

verus! {

/// Number of rows of a grid, the guard row included.
pub const ROWS: usize = 13;

/// Number of columns of a grid.
pub const COLS: usize = 6;

/// Number of cells of a grid.
pub const CELLS: usize = 78;

/// Index of the bottom row.
pub const FLOOR: usize = 12;

/// Value of a cell that holds nothing.
pub const EMPTY: u8 = 7;

/// Value of a cell that holds a garbage ball.
pub const GARBAGE: u8 = 0;

/// A grid as a sequence of rows.
pub type Grid = Seq<Seq<u8>>;

/// A position in a grid: row, then column.
pub type Cell = (usize, usize);

/// A cell value is a color when it can take part in a group.
pub open spec fn is_color(v: u8) -> bool {
    0 < v && v < 6
}

/// `p` is a position of the grid.
pub open spec fn in_grid(p: Cell) -> bool {
    p.0 < ROWS && p.1 < COLS
}

/// The value that `g` holds at `p`.
pub open spec fn at(g: Grid, p: Cell) -> u8 {
    g[p.0 as int][p.1 as int]
}

/// `g` has thirteen rows of six cells.
pub open spec fn grid_shape(g: Grid) -> bool {
    &&& g.len() == ROWS
    &&& forall|r: int| 0 <= r < ROWS ==> (#[trigger] g[r]).len() == COLS
}

/// The grid that an array of rows stands for.
pub open spec fn grid_of(board: [[u8; COLS]; ROWS]) -> Grid {
    Seq::new(ROWS as nat, |r: int| board[r]@)
}

/// The grid in which every cell is empty.
pub open spec fn empty_grid() -> Grid {
    Seq::new(ROWS as nat, |r: int| Seq::new(COLS as nat, |c: int| EMPTY))
}

/// `g` with the cell in row `r`, column `c` replaced by `v`.
pub open spec fn put(g: Grid, r: int, c: int, v: u8) -> Grid {
    g.update(r, g[r].update(c, v))
}

/// Column `c` of `g`, from the guard row down to the floor.
pub open spec fn column(g: Grid, c: int) -> Seq<u8> {
    Seq::new(ROWS as nat, |r: int| g[r][c])
}

/// The position of a cell when the grid is read row by row.
pub open spec fn scan_index(p: Cell) -> int {
    p.0 * COLS + p.1
}

/// The cell at position `n` when the grid is read row by row.
pub open spec fn cell_of(n: int) -> Cell {
    ((n / COLS as int) as usize, (n % COLS as int) as usize)
}

/// A cell of the grid is the cell at its own position in the scan.
pub proof fn lemma_scan_index(p: Cell)
    requires
        in_grid(p),
    ensures
        0 <= scan_index(p) < CELLS,
        cell_of(scan_index(p)) == p,
{
}

/// A position of the scan is the position of the cell that lies there.
pub proof fn lemma_cell_of(n: int)
    requires
        0 <= n < CELLS,
    ensures
        in_grid(cell_of(n)),
        scan_index(cell_of(n)) == n,
{
}

} // verus!


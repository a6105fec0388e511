//! What a board stands for: the grid, the fill index of each column, the
//! points, and the points not yet sent to the opponent; and what a move, a
//! cascade and rows of garbage make of it.

use crate::board::{grid_shape, put, Grid, COLS, EMPTY, FLOOR, GARBAGE, ROWS};
use crate::cascade::{cascade_fill, cascade_grid, cascade_score, MAX_CASCADE_SCORE};
use vstd::prelude::*;

verus! {

/// Points that make one row of garbage for the opponent.
pub const NUISANCE_PER_ROW: u32 = 70;

/// Number of moves: six columns for each upright placement, five for each
/// flat one.
pub const MOVES: u8 = 22;

/// The color of a piece that comes first.
pub open spec fn first_color(balls: u8) -> u8 {
    balls >> 4
}

/// The color of a piece that comes second.
pub open spec fn second_color(balls: u8) -> u8 {
    balls & 0xF
}

/// The column that the first ball of move `position` falls into.
pub open spec fn first_column(position: u8) -> int {
    if position < 6 {
        position as int
    } else if position < 12 {
        position - 6
    } else if position < 17 {
        position - 12
    } else {
        position - 17
    }
}

/// The column that the second ball of move `position` falls into: the same
/// column for an upright placement, the next one for a flat placement.
pub open spec fn second_column(position: u8) -> int {
    if position < 12 {
        first_column(position)
    } else {
        first_column(position) + 1
    }
}

/// Move `position` lets the second color of the piece fall first.
pub open spec fn is_reversed(position: u8) -> bool {
    6 <= position < 12 || 17 <= position
}

/// The smallest of the first `n` entries of `fill`, and `FLOOR` at most.
pub open spec fn least_fill(fill: Seq<int>, n: int) -> int
    decreases n,
{
    if n <= 0 {
        FLOOR as int
    } else {
        let rest = least_fill(fill, n - 1);
        if fill[n - 1] < rest {
            fill[n - 1]
        } else {
            rest
        }
    }
}

/// The first column from `from` on whose entry of `fill` is `k`, or `COLS`.
pub open spec fn first_with(fill: Seq<int>, k: int, from: int) -> int
    decreases COLS - from,
{
    if from >= COLS {
        COLS as int
    } else if fill[from] == k {
        from
    } else {
        first_with(fill, k, from + 1)
    }
}

/// The state of one player's board.
pub struct PlayerState {
    /// The cells, row by row from the guard row down to the floor.
    pub grid: Grid,
    /// For each column, the row of its next free cell.
    pub fill: Seq<int>,
    /// The points earned so far.
    pub score: nat,
    /// The points earned and not yet turned into garbage.
    pub nuisance: nat,
}

impl PlayerState {
    /// The grid has its shape and every fill index is a row of it.
    pub open spec fn wf(self) -> bool {
        &&& grid_shape(self.grid)
        &&& self.fill.len() == COLS
        &&& forall|c: int| 0 <= c < COLS ==> 0 <= #[trigger] self.fill[c] <= FLOOR
    }

    /// No cell of the guard row holds a ball.
    pub open spec fn guard_free(self) -> bool {
        forall|c: int| 0 <= c < COLS ==> #[trigger] self.grid[0][c] == EMPTY
    }

    /// Column `c` has a free cell below the guard row.
    pub open spec fn can_drop(self, c: int) -> bool {
        self.fill[c] > 0
    }

    /// The state after a ball `v` came to rest in column `c`.
    pub open spec fn dropped(self, c: int, v: u8) -> PlayerState {
        PlayerState {
            grid: put(self.grid, self.fill[c], c, v),
            fill: self.fill.update(c, self.fill[c] - 1),
            ..self
        }
    }

    /// Both balls of move `position` find a free cell.
    pub open spec fn can_place(self, position: u8) -> bool {
        &&& self.can_drop(first_column(position))
        &&& self.dropped(first_column(position), EMPTY).can_drop(second_column(position))
    }

    /// The state after the balls of the piece `balls` fell as move `position`
    /// says, as far as they found a free cell: the first ball, then the
    /// second. A ball that finds none ends the move.
    pub open spec fn placed(self, balls: u8, position: u8) -> PlayerState {
        let a = if is_reversed(position) {
            second_color(balls)
        } else {
            first_color(balls)
        };
        let b = if is_reversed(position) {
            first_color(balls)
        } else {
            second_color(balls)
        };
        if !self.can_drop(first_column(position)) {
            self
        } else {
            let one = self.dropped(first_column(position), a);
            if one.can_drop(second_column(position)) {
                one.dropped(second_column(position), b)
            } else {
                one
            }
        }
    }

    /// The state after the cascade: the grid at rest, the score of the
    /// cascade added to the points and to the pending points.
    pub open spec fn resolved(self) -> PlayerState {
        PlayerState {
            grid: cascade_grid(self.grid),
            fill: cascade_fill(self.grid, self.fill),
            score: self.score + cascade_score(self.grid, 0),
            nuisance: self.nuisance + cascade_score(self.grid, 0),
        }
    }

    /// The state after move `position` with the piece `balls`: placed and
    /// resolved, or, where a ball found no free cell, placed as far as it
    /// went.
    pub open spec fn played(self, balls: u8, position: u8) -> PlayerState {
        if self.can_place(position) {
            self.placed(balls, position).resolved()
        } else {
            self.placed(balls, position)
        }
    }

    /// The points and the pending points leave room for the score of one
    /// more cascade.
    pub open spec fn has_headroom(self) -> bool {
        &&& self.score + MAX_CASCADE_SCORE <= u32::MAX
        &&& self.nuisance + MAX_CASCADE_SCORE <= u32::MAX
    }

    /// The state with `adds[c]` garbage balls on top of each column `c`.
    pub open spec fn stacked(self, adds: Seq<int>) -> PlayerState {
        PlayerState {
            grid: Seq::new(
                ROWS as nat,
                |r: int|
                    Seq::new(
                        COLS as nat,
                        |c: int|
                            if self.fill[c] - adds[c] < r <= self.fill[c] {
                                GARBAGE
                            } else {
                                self.grid[r][c]
                            },
                    ),
            ),
            fill: Seq::new(COLS as nat, |c: int| self.fill[c] - adds[c]),
            ..self
        }
    }

    /// Every column has room for `rows` more balls.
    pub open spec fn can_take(self, rows: nat) -> bool {
        forall|c: int| 0 <= c < COLS ==> #[trigger] self.fill[c] >= rows
    }

    /// The number of garbage balls that column `c` gets when `rows` rows of
    /// garbage are added, one ball for each column in turn, row after row,
    /// until all are in or a column is full.
    pub open spec fn garbage_in(self, rows: nat, c: int) -> int {
        let least = least_fill(self.fill, COLS as int);
        if rows <= least {
            rows as int
        } else if c < first_with(self.fill, least, 0) {
            least + 1
        } else {
            least
        }
    }

    /// The state after `rows` rows of garbage were added, as far as they
    /// went.
    pub open spec fn with_garbage(self, rows: nat) -> PlayerState {
        self.stacked(Seq::new(COLS as nat, |c: int| self.garbage_in(rows, c)))
    }

    /// The rows of garbage that the pending points make: one for every 70
    /// points.
    pub open spec fn garbage_rows(self) -> nat {
        self.nuisance / NUISANCE_PER_ROW as nat
    }

    /// The state after the pending points were turned into rows of garbage:
    /// what is left of them is less than the points of one row.
    pub open spec fn drained(self) -> PlayerState {
        PlayerState { nuisance: self.nuisance % NUISANCE_PER_ROW as nat, ..self }
    }

    /// Every column is a stack: the cells down to its fill index are empty,
    /// the cells below hold a ball.
    pub open spec fn compact(self) -> bool {
        forall|r: int, c: int|
            0 <= r < ROWS && 0 <= c < COLS ==> (#[trigger] self.grid[r][c] == EMPTY <==> r
                <= self.fill[c])
    }
}

/// The state after the moves `moves`, each a piece and a position, were
/// played one after the other.
pub open spec fn played_all(s: PlayerState, moves: Seq<(u8, u8)>) -> PlayerState
    decreases moves.len(),
{
    if moves.len() == 0 {
        s
    } else {
        played_all(s, moves.drop_last()).played(moves.last().0, moves.last().1)
    }
}

/// No entry of `fill` is below `least_fill`.
pub proof fn lemma_least_fill(fill: Seq<int>, n: int, c: int)
    requires
        0 <= c < n,
    ensures
        least_fill(fill, n) <= fill[c],
    decreases n,
{
    if c < n - 1 {
        lemma_least_fill(fill, n - 1, c);
    }
}

/// No column before `first_with` has the entry `k`.
pub proof fn lemma_first_with_skips(fill: Seq<int>, k: int, from: int, c: int)
    requires
        0 <= from <= c < first_with(fill, k, from),
    ensures
        fill[c] != k,
        c < COLS,
    decreases COLS - from,
{
    if from < COLS && fill[from] != k && from < c {
        lemma_first_with_skips(fill, k, from + 1, c);
    }
}

/// An entry that no entry is below is the least.
pub proof fn lemma_least_fill_is(fill: Seq<int>, n: int, k: int)
    requires
        0 <= n,
        k <= FLOOR,
        forall|c: int| 0 <= c < n ==> k <= #[trigger] fill[c],
        exists|c: int| 0 <= c < n && #[trigger] fill[c] == k,
    ensures
        least_fill(fill, n) == k,
    decreases n,
{
    if n > 0 {
        if exists|c: int| 0 <= c < n - 1 && #[trigger] fill[c] == k {
            lemma_least_fill_is(fill, n - 1, k);
        } else {
            lemma_least_fill_above(fill, n - 1, k);
        }
    }
}

/// The least of entries that are all `k` or more is `k` or more.
pub proof fn lemma_least_fill_above(fill: Seq<int>, n: int, k: int)
    requires
        k <= FLOOR,
        forall|c: int| 0 <= c < n ==> k <= #[trigger] fill[c],
    ensures
        least_fill(fill, n) >= k,
    decreases n,
{
    if n > 0 {
        lemma_least_fill_above(fill, n - 1, k);
    }
}

/// The first column from `from` on with the entry `k` is `col`, where no
/// column between the two has that entry.
pub proof fn lemma_first_with(fill: Seq<int>, k: int, from: int, col: int)
    requires
        0 <= from <= col < COLS,
        fill[col] == k,
        forall|c: int| from <= c < col ==> #[trigger] fill[c] != k,
    ensures
        first_with(fill, k, from) == col,
    decreases col - from,
{
    if from < col {
        lemma_first_with(fill, k, from + 1, col);
    }
}

} // verus!

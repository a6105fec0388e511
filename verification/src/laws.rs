//! Laws of the board: what holds of every state, whatever the moves.

use crate::board::{column, grid_shape, Cell, Grid, COLS, EMPTY, FLOOR, GARBAGE, ROWS};
use crate::cascade::{cascade_grid, cascade_score, cleared, lemma_step_shrinks, step};
use crate::gravity::{
    colored_count, filled_count, filled_in, lemma_filter_update, lemma_gravity_idempotent,
    lemma_settle_parts, lemma_settled_shape, occupied, settled, settled_fill,
};
use crate::groups::{has_group, lemma_group_exists, qualifies};
use crate::player::Player;
use crate::state::{
    first_color, first_column, is_reversed, least_fill, lemma_first_with_skips, lemma_least_fill,
    lemma_least_fill_above, played_all, second_color, second_column, PlayerState, MOVES,
    NUISANCE_PER_ROW,
};
use vstd::prelude::*;

verus! {

/// A ball that comes to rest leaves every fill index a row of the grid.
pub proof fn lemma_dropped_wf(s: PlayerState, c: int, v: u8)
    requires
        s.wf(),
        0 <= c < COLS,
        s.can_drop(c),
    ensures
        s.dropped(c, v).wf(),
{
    let t = s.dropped(c, v);
    assert forall|k: int| 0 <= k < COLS implies 0 <= #[trigger] t.fill[k] <= FLOOR by {}
    assert forall|r: int| 0 <= r < ROWS implies (#[trigger] t.grid[r]).len() == COLS by {}
}

/// A ball that is no empty cell and comes to rest on a stack leaves a
/// stack.
pub proof fn lemma_dropped_compact(s: PlayerState, c: int, v: u8)
    requires
        s.wf(),
        s.compact(),
        0 <= c < COLS,
        s.can_drop(c),
        v != EMPTY,
    ensures
        s.dropped(c, v).compact(),
{
    let t = s.dropped(c, v);
    assert forall|r: int, k: int| 0 <= r < ROWS && 0 <= k < COLS implies (#[trigger] t.grid[r][k]
        == EMPTY <==> r <= t.fill[k]) by {}
}

/// The balls of a piece leave every fill index a row of the grid, and the
/// guard row empty where it was empty.
pub proof fn lemma_placed_wf(s: PlayerState, balls: u8, position: u8)
    requires
        s.wf(),
        position < MOVES,
    ensures
        s.placed(balls, position).wf(),
        s.guard_free() ==> s.placed(balls, position).guard_free(),
{
    let a = if is_reversed(position) {
        second_color(balls)
    } else {
        first_color(balls)
    };
    let b = if is_reversed(position) {
        first_color(balls)
    } else {
        second_color(balls)
    };
    if s.can_drop(first_column(position)) {
        lemma_dropped_wf(s, first_column(position), a);
        let one = s.dropped(first_column(position), a);
        if one.can_drop(second_column(position)) {
            lemma_dropped_wf(one, second_column(position), b);
        }
    }
}

/// A cascade leaves the guard row empty where it was empty.
pub proof fn lemma_cascade_guard(g: Grid)
    requires
        grid_shape(g),
        forall|c: int| 0 <= c < COLS ==> #[trigger] g[0][c] == EMPTY,
    ensures
        forall|c: int| 0 <= c < COLS ==> #[trigger] cascade_grid(g)[0][c] == EMPTY,
    decreases colored_count(g),
{
    if has_group(g) {
        lemma_step_shrinks(g);
        let h = cleared(g);
        assert forall|c: int| 0 <= c < COLS implies #[trigger] h[0][c] == EMPTY by {
            assert(g[0][c] == EMPTY);
        }
        lemma_settled_compact(h);
        lemma_cascade_guard(step(g));
        assert(cascade_grid(g) == cascade_grid(step(g)));
    } else {
        assert(cascade_grid(g) == g);
    }
}

/// The balls of a piece of two colors, placed on stacks, leave stacks.
pub proof fn lemma_placed_compact(s: PlayerState, balls: u8, position: u8)
    requires
        s.wf(),
        s.compact(),
        position < MOVES,
        first_color(balls) != EMPTY,
        second_color(balls) != EMPTY,
    ensures
        s.placed(balls, position).compact(),
{
    let a = if is_reversed(position) {
        second_color(balls)
    } else {
        first_color(balls)
    };
    let b = if is_reversed(position) {
        first_color(balls)
    } else {
        second_color(balls)
    };
    if s.can_drop(first_column(position)) {
        lemma_dropped_wf(s, first_column(position), a);
        lemma_dropped_compact(s, first_column(position), a);
        let one = s.dropped(first_column(position), a);
        if one.can_drop(second_column(position)) {
            lemma_dropped_compact(one, second_column(position), b);
        }
    }
}

/// A cascade ends with a grid of thirteen rows of six cells.
pub proof fn lemma_cascade_shape(g: Grid)
    requires
        grid_shape(g),
    ensures
        grid_shape(cascade_grid(g)),
    decreases colored_count(g),
{
    if has_group(g) {
        lemma_step_shrinks(g);
        lemma_cascade_shape(step(g));
    }
}

/// A cascade leaves every fill index a row of the grid, and the guard row
/// empty where it was empty.
pub proof fn lemma_resolved_wf(s: PlayerState)
    requires
        s.wf(),
    ensures
        s.resolved().wf(),
        s.guard_free() ==> s.resolved().guard_free(),
{
    if s.guard_free() {
        lemma_cascade_guard(s.grid);
    }
    lemma_cascade_shape(s.grid);
    lemma_settled_shape(cascade_grid(s.grid));
}

/// A grid whose guard row is empty is, after gravity, made of stacks.
pub proof fn lemma_settled_compact(g: Grid)
    requires
        grid_shape(g),
        forall|c: int| 0 <= c < COLS ==> #[trigger] g[0][c] == EMPTY,
    ensures
        (PlayerState { grid: settled(g), fill: settled_fill(g), score: 0, nuisance: 0 }).compact(),
        forall|c: int| 0 <= c < COLS ==> #[trigger] settled(g)[0][c] == EMPTY,
{
    let t = PlayerState { grid: settled(g), fill: settled_fill(g), score: 0, nuisance: 0 };
    assert forall|r: int, c: int| 0 <= r < ROWS && 0 <= c < COLS implies (#[trigger] t.grid[r][c]
        == EMPTY <==> r <= t.fill[c]) by {
        lemma_settle_parts(column(g, c));
    }
    assert forall|c: int| 0 <= c < COLS implies #[trigger] settled(g)[0][c] == EMPTY by {}
}

/// A cascade with at least one pass on a grid whose guard row is empty ends
/// with stacks.
pub proof fn lemma_cascade_compact(g: Grid)
    requires
        grid_shape(g),
        has_group(g),
        forall|c: int| 0 <= c < COLS ==> #[trigger] g[0][c] == EMPTY,
    ensures
        (PlayerState {
            grid: cascade_grid(g),
            fill: settled_fill(cascade_grid(g)),
            score: 0,
            nuisance: 0,
        }).compact(),
    decreases colored_count(g),
{
    lemma_step_shrinks(g);
    let h = cleared(g);
    assert forall|c: int| 0 <= c < COLS implies #[trigger] h[0][c] == EMPTY by {}
    lemma_settled_compact(h);
    assert(cascade_grid(g) == cascade_grid(step(g)));
    if has_group(step(g)) {
        lemma_cascade_compact(step(g));
    } else {
        lemma_gravity_idempotent(h);
    }
}

/// A cascade on stacks leaves stacks.
pub proof fn lemma_resolved_compact(s: PlayerState)
    requires
        s.wf(),
        s.compact(),
    ensures
        s.resolved().compact(),
{
    if has_group(s.grid) {
        assert forall|c: int| 0 <= c < COLS implies #[trigger] s.grid[0][c] == EMPTY by {}
        lemma_cascade_compact(s.grid);
        let t = PlayerState {
            grid: cascade_grid(s.grid),
            fill: settled_fill(cascade_grid(s.grid)),
            score: 0,
            nuisance: 0,
        };
        let u = s.resolved();
        assert forall|r: int, c: int| 0 <= r < ROWS && 0 <= c < COLS implies (
        #[trigger] u.grid[r][c] == EMPTY <==> r <= u.fill[c]) by {
            assert(t.grid[r][c] == EMPTY <==> r <= t.fill[c]);
        }
    } else {
        let u = s.resolved();
        assert forall|r: int, c: int| 0 <= r < ROWS && 0 <= c < COLS implies (
        #[trigger] u.grid[r][c] == EMPTY <==> r <= u.fill[c]) by {}
    }
}

/// A move leaves every fill index a row of the grid, and the guard row
/// empty where it was empty; a move with a piece of two colors, made on
/// stacks, leaves stacks.
pub proof fn lemma_played_wf(s: PlayerState, balls: u8, position: u8)
    requires
        s.wf(),
        position < MOVES,
    ensures
        s.played(balls, position).wf(),
        s.guard_free() ==> s.played(balls, position).guard_free(),
        s.compact() && first_color(balls) != EMPTY && second_color(balls) != EMPTY ==> s.played(
            balls,
            position,
        ).compact(),
{
    lemma_placed_wf(s, balls, position);
    if s.can_place(position) {
        lemma_resolved_wf(s.placed(balls, position));
    }
    if s.compact() && first_color(balls) != EMPTY && second_color(balls) != EMPTY {
        lemma_placed_compact(s, balls, position);
        if s.can_place(position) {
            lemma_resolved_compact(s.placed(balls, position));
        }
    }
}

/// After any sequence of moves, each placed and resolved, every fill index
/// is a row of the grid: `0 <= fill[c] <= 12`. The guard row is empty
/// where it was empty before the moves.
pub proof fn lemma_fill_in_range(s: PlayerState, moves: Seq<(u8, u8)>)
    requires
        s.wf(),
        forall|i: int| 0 <= i < moves.len() ==> (#[trigger] moves[i]).1 < MOVES,
    ensures
        played_all(s, moves).wf(),
        forall|c: int| 0 <= c < COLS ==> 0 <= #[trigger] played_all(s, moves).fill[c] <= FLOOR,
        s.guard_free() ==> played_all(s, moves).guard_free(),
    decreases moves.len(),
{
    if moves.len() > 0 {
        let rest = moves.drop_last();
        assert forall|i: int| 0 <= i < rest.len() implies (#[trigger] rest[i]).1 < MOVES by {}
        lemma_fill_in_range(s, rest);
        lemma_played_wf(played_all(s, rest), moves.last().0, moves.last().1);
    }
}

/// The number of garbage balls that each column gets is none below zero and
/// no more than the column has room for.
pub proof fn lemma_garbage_in_range(s: PlayerState, rows: nat, c: int)
    requires
        s.wf(),
        0 <= c < COLS,
    ensures
        0 <= s.garbage_in(rows, c) <= s.fill[c],
        s.garbage_in(rows, c) <= rows,
        s.can_take(rows) ==> s.garbage_in(rows, c) == rows,
{
    let least = least_fill(s.fill, COLS as int);
    lemma_least_fill(s.fill, COLS as int, c);
    lemma_least_fill_above(s.fill, COLS as int, 0);
    if rows > least {
        if c < crate::state::first_with(s.fill, least, 0) {
            lemma_first_with_skips(s.fill, least, 0, c);
        }
    }
    if s.can_take(rows) {
        lemma_least_fill_above(s.fill, COLS as int, rows as int);
    }
}

/// Rows of garbage leave every fill index a row of the grid, the guard row
/// empty where it was empty, and stacks where they fell on stacks.
pub proof fn lemma_with_garbage_wf(s: PlayerState, rows: nat)
    requires
        s.wf(),
    ensures
        s.with_garbage(rows).wf(),
        s.guard_free() ==> s.with_garbage(rows).guard_free(),
        s.compact() ==> s.with_garbage(rows).compact(),
{
    let t = s.with_garbage(rows);
    assert forall|c: int| 0 <= c < COLS && s.guard_free() implies #[trigger] t.grid[0][c]
        == EMPTY by {
        lemma_garbage_in_range(s, rows, c);
        assert(s.grid[0][c] == EMPTY);
    }
    assert forall|c: int| 0 <= c < COLS implies 0 <= #[trigger] t.fill[c] <= FLOOR by {
        lemma_garbage_in_range(s, rows, c);
    }
    if s.compact() {
        assert forall|r: int, c: int| 0 <= r < ROWS && 0 <= c < COLS implies (
        #[trigger] t.grid[r][c] == EMPTY <==> r <= t.fill[c]) by {
            lemma_garbage_in_range(s, rows, c);
        }
    }
}

/// A new board is made of stacks with fill indices in the grid.
pub proof fn lemma_new_state()
    ensures
        Player::new_state().wf(),
        Player::new_state().compact(),
{
}

/// A cascade ends with a grid that holds no group: a second cascade
/// changes nothing and scores nothing.
pub proof fn lemma_cascade_ends(g: Grid)
    requires
        grid_shape(g),
    ensures
        !has_group(cascade_grid(g)),
        cascade_grid(cascade_grid(g)) == cascade_grid(g),
        cascade_score(cascade_grid(g), 0) == 0,
    decreases colored_count(g),
{
    lemma_cascade_shape(g);
    if has_group(g) {
        lemma_step_shrinks(g);
        lemma_cascade_ends(step(g));
    }
}

/// A cascade on a board where no cell qualifies for clearing leaves the
/// board as it is and scores nothing.
pub proof fn lemma_no_group_no_change(s: PlayerState)
    requires
        s.wf(),
        forall|p: Cell| !qualifies(s.grid, p),
    ensures
        !has_group(s.grid),
        cascade_score(s.grid, 0) == 0,
        s.resolved() == s,
{
    lemma_group_exists(s.grid);
}

/// Turning pending points into garbage a second time gives no row and
/// changes nothing; so does the first time where fewer than 70 points are
/// pending.
pub proof fn lemma_drain_idempotent(s: PlayerState)
    ensures
        s.drained().garbage_rows() == 0,
        s.drained().drained() == s.drained(),
        s.nuisance < NUISANCE_PER_ROW ==> s.garbage_rows() == 0 && s.drained() == s,
{
}

/// No row of garbage goes in always, and changes nothing.
pub proof fn lemma_no_garbage(s: PlayerState)
    requires
        s.wf(),
    ensures
        s.can_take(0),
        s.with_garbage(0) == s,
{
    let t = s.with_garbage(0);
    assert forall|c: int| 0 <= c < COLS implies s.garbage_in(0, c) == 0 by {
        lemma_least_fill_above(s.fill, COLS as int, 0);
    }
    assert(t.fill =~= s.fill);
    assert(t.grid =~~= s.grid);
}

/// A column with garbage in the `n` cells down to the row `fill`.
pub open spec fn garbage_on(col: Seq<u8>, fill: int, n: int) -> Seq<u8> {
    Seq::new(
        ROWS as nat,
        |r: int|
            if fill - n < r <= fill {
                GARBAGE
            } else {
                col[r]
            },
    )
}

/// Garbage in `n` empty cells of a column makes `n` more cells with a ball.
pub proof fn lemma_column_garbage(col: Seq<u8>, fill: int, n: nat)
    requires
        col.len() == ROWS,
        0 <= n <= fill <= FLOOR,
        forall|r: int| fill - n < r <= fill ==> #[trigger] col[r] == EMPTY,
    ensures
        filled_in(garbage_on(col, fill, n as int)) == filled_in(col) + n,
    decreases n,
{
    if n == 0 {
        assert(garbage_on(col, fill, 0) =~= col);
    } else {
        lemma_column_garbage(col, fill, (n - 1) as nat);
        let prev = garbage_on(col, fill, n - 1);
        let row = fill - n + 1;
        assert(garbage_on(col, fill, n as int) =~= prev.update(row, GARBAGE));
        lemma_filter_update(prev, row, GARBAGE, occupied());
    }
}

/// Where every column has room for `rows` more balls, and the cells that
/// they fall into are empty, `rows` rows of garbage go in, and leave
/// exactly `6 * rows` more cells with a ball.
pub proof fn lemma_garbage_fills(s: PlayerState, rows: nat)
    requires
        s.wf(),
        s.can_take(rows),
        forall|r: int, c: int|
            0 <= c < COLS && s.fill[c] - rows < r <= s.fill[c] ==> #[trigger] s.grid[r][c]
                == EMPTY,
    ensures
        filled_count(s.with_garbage(rows).grid) == filled_count(s.grid) + 6 * rows,
        forall|c: int|
            0 <= c < COLS ==> #[trigger] s.with_garbage(rows).fill[c] == s.fill[c] - rows,
{
    let t = s.with_garbage(rows);
    assert forall|c: int| 0 <= c < COLS implies filled_in(#[trigger] column(t.grid, c))
        == filled_in(column(s.grid, c)) + rows && t.fill[c] == s.fill[c] - rows by {
        lemma_garbage_in_range(s, rows, c);
        let col = column(s.grid, c);
        assert forall|r: int| s.fill[c] - rows < r <= s.fill[c] implies #[trigger] col[r]
            == EMPTY by {}
        lemma_column_garbage(col, s.fill[c], rows);
        assert(column(t.grid, c) =~= garbage_on(col, s.fill[c], rows as int));
    }
    assert(filled_in(column(t.grid, 0)) == filled_in(column(s.grid, 0)) + rows);
}

/// On a board of stacks the cells that garbage falls into are empty.
pub proof fn lemma_stacks_are_free(s: PlayerState, rows: nat)
    requires
        s.wf(),
        s.compact(),
    ensures
        forall|r: int, c: int|
            0 <= c < COLS && s.fill[c] - rows < r <= s.fill[c] && 0 <= r ==> #[trigger] s.grid[r][c]
                == EMPTY,
{
    assert forall|r: int, c: int|
        0 <= c < COLS && s.fill[c] - rows < r <= s.fill[c] && 0 <= r implies #[trigger] s.grid[r][c]
            == EMPTY by {}
}

} // verus!

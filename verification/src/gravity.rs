//! Gravity: what a grid looks like once every ball has fallen as far as it
//! can, and how many colored cells a grid holds.
//!
//! Gravity works on each column by itself and never touches the guard row.
//! The balls of rows 1 to 12 keep their order and come to rest on the floor.

use crate::board::{
    at, column, grid_shape, in_grid, is_color, put, Cell, Grid, COLS, EMPTY, FLOOR, ROWS,
};
use vstd::prelude::*;

verus! {

/// The test for a cell that holds a ball.
pub open spec fn occupied() -> spec_fn(u8) -> bool {
    |v: u8| v != EMPTY
}

/// The test for a cell that holds a color.
pub open spec fn colored() -> spec_fn(u8) -> bool {
    |v: u8| is_color(v)
}

/// The balls of a column below the guard row, from the top down.
pub open spec fn kept(col: Seq<u8>) -> Seq<u8> {
    col.subrange(1, ROWS as int).filter(occupied())
}

/// The row of the first free cell above the balls of a column at rest.
pub open spec fn resting_fill(col: Seq<u8>) -> int {
    FLOOR - kept(col).len()
}

/// A column after gravity: the guard row as it was, then empty cells, then
/// the balls in their old order down to the floor.
pub open spec fn settle_column(col: Seq<u8>) -> Seq<u8> {
    let k = kept(col);
    Seq::new(
        ROWS as nat,
        |r: int|
            if r == 0 {
                col[0]
            } else if r <= FLOOR - k.len() {
                EMPTY
            } else {
                k[r - (FLOOR - k.len()) - 1]
            },
    )
}

/// The grid after gravity.
pub open spec fn settled(g: Grid) -> Grid {
    Seq::new(ROWS as nat, |r: int| Seq::new(COLS as nat, |c: int| settle_column(column(g, c))[r]))
}

/// The fill index of each column after gravity.
pub open spec fn settled_fill(g: Grid) -> Seq<int> {
    Seq::new(COLS as nat, |c: int| resting_fill(column(g, c)))
}

/// The number of colored cells of a column.
pub open spec fn colored_in(col: Seq<u8>) -> nat {
    col.filter(colored()).len()
}

/// The number of cells of a column that hold a ball.
pub open spec fn filled_in(col: Seq<u8>) -> nat {
    col.filter(occupied()).len()
}

/// The number of cells of a grid that hold a ball.
pub open spec fn filled_count(g: Grid) -> nat {
    filled_in(column(g, 0)) + filled_in(column(g, 1)) + filled_in(column(g, 2)) + filled_in(
        column(g, 3),
    ) + filled_in(column(g, 4)) + filled_in(column(g, 5))
}

/// The number of colored cells of a grid.
pub open spec fn colored_count(g: Grid) -> nat {
    colored_in(column(g, 0)) + colored_in(column(g, 1)) + colored_in(column(g, 2)) + colored_in(
        column(g, 3),
    ) + colored_in(column(g, 4)) + colored_in(column(g, 5))
}

/// A filter keeps a sequence whose entries all pass.
pub proof fn lemma_filter_all<A>(s: Seq<A>, pred: spec_fn(A) -> bool)
    requires
        forall|i: int| 0 <= i < s.len() ==> pred(#[trigger] s[i]),
    ensures
        s.filter(pred) == s,
    decreases s.len(),
{
    reveal(Seq::filter);
    if s.len() > 0 {
        lemma_filter_all(s.drop_last(), pred);
    }
}

/// A filter leaves nothing of a sequence whose entries all fail.
pub proof fn lemma_filter_none<A>(s: Seq<A>, pred: spec_fn(A) -> bool)
    requires
        forall|i: int| 0 <= i < s.len() ==> !pred(#[trigger] s[i]),
    ensures
        s.filter(pred) == Seq::<A>::empty(),
    decreases s.len(),
{
    reveal(Seq::filter);
    if s.len() > 0 {
        lemma_filter_none(s.drop_last(), pred);
    }
}

/// Filtering by a weaker test first changes nothing.
pub proof fn lemma_filter_twice<A>(s: Seq<A>, weak: spec_fn(A) -> bool, strong: spec_fn(A) -> bool)
    requires
        forall|a: A| #[trigger] strong(a) ==> weak(a),
    ensures
        s.filter(weak).filter(strong) == s.filter(strong),
    decreases s.len(),
{
    reveal(Seq::filter);
    if s.len() > 0 {
        let rest = s.drop_last();
        lemma_filter_twice(rest, weak, strong);
        if weak(s.last()) {
            let w = rest.filter(weak).push(s.last());
            assert(w.drop_last() =~= rest.filter(weak));
        }
    }
}

/// The entries of a filtered sequence pass the test.
pub proof fn lemma_filter_passes<A>(s: Seq<A>, pred: spec_fn(A) -> bool)
    ensures
        forall|i: int| 0 <= i < s.filter(pred).len() ==> pred(#[trigger] s.filter(pred)[i]),
        s.filter(pred).len() <= s.len(),
    decreases s.len(),
{
    reveal(Seq::filter);
    if s.len() > 0 {
        lemma_filter_passes(s.drop_last(), pred);
    }
}

/// The balls of a column from row `read` down: the ball of that row, if it
/// holds one, then those below.
pub proof fn lemma_kept_grow(col: Seq<u8>, read: int)
    requires
        col.len() == ROWS,
        0 <= read < ROWS,
    ensures
        col.subrange(read, ROWS as int).filter(occupied()) == (if col[read] != EMPTY {
            seq![col[read]] + col.subrange(read + 1, ROWS as int).filter(occupied())
        } else {
            col.subrange(read + 1, ROWS as int).filter(occupied())
        }),
        col.subrange(read, ROWS as int).filter(occupied()).len() <= ROWS - read,
{
    reveal_with_fuel(Seq::filter, 2);
    let head = seq![col[read]];
    let tail = col.subrange(read + 1, ROWS as int);
    assert(col.subrange(read, ROWS as int) =~= head + tail);
    Seq::filter_distributes_over_add(head, tail, occupied());
    lemma_filter_passes(col.subrange(read, ROWS as int), occupied());
}

/// A column after gravity, cut into its three parts.
pub proof fn lemma_settle_parts(col: Seq<u8>)
    requires
        col.len() == ROWS,
    ensures
        kept(col).len() <= FLOOR,
        settle_column(col).len() == ROWS,
        settle_column(col).subrange(1, ROWS as int) == Seq::new(
            (FLOOR - kept(col).len()) as nat,
            |i: int| EMPTY,
        ) + kept(col),
        forall|i: int| 0 <= i < kept(col).len() ==> #[trigger] kept(col)[i] != EMPTY,
{
    let k = kept(col);
    lemma_filter_passes(col.subrange(1, ROWS as int), occupied());
    assert forall|i: int| 0 <= i < k.len() implies #[trigger] k[i] != EMPTY by {}
}

/// Gravity keeps the balls of a column: settling twice is settling once.
pub proof fn lemma_kept_settled(col: Seq<u8>)
    requires
        col.len() == ROWS,
    ensures
        kept(settle_column(col)) == kept(col),
        settle_column(settle_column(col)) == settle_column(col),
        resting_fill(settle_column(col)) == resting_fill(col),
{
    let k = kept(col);
    lemma_settle_parts(col);
    let pad = Seq::new((FLOOR - k.len()) as nat, |i: int| EMPTY);
    Seq::filter_distributes_over_add(pad, k, occupied());
    lemma_filter_none(pad, occupied());
    assert forall|i: int| 0 <= i < k.len() implies occupied()(#[trigger] k[i]) by {}
    lemma_filter_all(k, occupied());
}

/// Gravity keeps the number of colored cells of a column.
pub proof fn lemma_settle_keeps_colors(col: Seq<u8>)
    requires
        col.len() == ROWS,
    ensures
        colored_in(settle_column(col)) == colored_in(col),
{
    let k = kept(col);
    let rest = col.subrange(1, ROWS as int);
    let head = col.subrange(0, 1);
    let pad = Seq::new((FLOOR - k.len()) as nat, |i: int| EMPTY);
    let after = settle_column(col);
    lemma_settle_parts(col);
    assert(col =~= head + rest);
    assert(after =~= head + (pad + k));
    Seq::filter_distributes_over_add(head, rest, colored());
    Seq::filter_distributes_over_add(head, pad + k, colored());
    Seq::filter_distributes_over_add(pad, k, colored());
    lemma_filter_none(pad, colored());
    assert forall|a: u8| #[trigger] colored()(a) implies occupied()(a) by {}
    lemma_filter_twice(rest, occupied(), colored());
}

/// Replacing one entry of a sequence changes the number of entries that
/// pass a test by what the entry lost and gained.
pub proof fn lemma_filter_update<A>(s: Seq<A>, i: int, v: A, pred: spec_fn(A) -> bool)
    requires
        0 <= i < s.len(),
    ensures
        s.update(i, v).filter(pred).len() + (if pred(s[i]) { 1int } else { 0 }) == s.filter(
            pred,
        ).len() + (if pred(v) { 1int } else { 0 }),
{
    reveal_with_fuel(Seq::filter, 2);
    let a = s.subrange(0, i);
    let b = s.subrange(i + 1, s.len() as int);
    let x = seq![s[i]];
    let y = seq![v];
    assert(s =~= a + (x + b));
    assert(s.update(i, v) =~= a + (y + b));
    Seq::filter_distributes_over_add(a, x + b, pred);
    Seq::filter_distributes_over_add(x, b, pred);
    Seq::filter_distributes_over_add(a, y + b, pred);
    Seq::filter_distributes_over_add(y, b, pred);
}

/// A column that holds a color only where another does has no more colored
/// cells than the other.
pub proof fn lemma_colored_in_mono(s: Seq<u8>, t: Seq<u8>)
    requires
        s.len() == t.len(),
        forall|i: int| 0 <= i < t.len() && is_color(#[trigger] t[i]) ==> is_color(s[i]),
    ensures
        colored_in(t) <= colored_in(s),
    decreases s.len(),
{
    reveal(Seq::filter);
    if s.len() > 0 {
        assert forall|i: int| 0 <= i < t.drop_last().len() && is_color(
            #[trigger] t.drop_last()[i],
        ) implies is_color(s.drop_last()[i]) by {}
        lemma_colored_in_mono(s.drop_last(), t.drop_last());
    }
}

/// Gravity keeps the shape of a grid, works column by column, and leaves
/// every fill index a row of the grid.
pub proof fn lemma_settled_shape(g: Grid)
    requires
        grid_shape(g),
    ensures
        grid_shape(settled(g)),
        forall|c: int|
            0 <= c < COLS ==> #[trigger] column(settled(g), c) == settle_column(column(g, c)),
        forall|c: int| 0 <= c < COLS ==> 0 <= #[trigger] settled_fill(g)[c] <= FLOOR,
{
    assert forall|c: int| 0 <= c < COLS implies #[trigger] column(settled(g), c) == settle_column(
        column(g, c),
    ) by {}
    assert forall|c: int| 0 <= c < COLS implies 0 <= #[trigger] settled_fill(g)[c] <= FLOOR by {}
}

/// Applying gravity twice in a row yields the same grid as applying it once,
/// and the same fill indices.
pub proof fn lemma_gravity_idempotent(g: Grid)
    requires
        grid_shape(g),
    ensures
        settled(settled(g)) == settled(g),
        settled_fill(settled(g)) == settled_fill(g),
{
    lemma_settled_shape(g);
    assert forall|c: int| 0 <= c < COLS implies settle_column(#[trigger] column(settled(g), c))
        == settle_column(column(g, c)) && resting_fill(column(settled(g), c)) == resting_fill(
        column(g, c),
    ) by {
        lemma_kept_settled(column(g, c));
    }
    assert(settled(settled(g)) =~~= settled(g));
}

/// Gravity keeps the number of colored cells of a grid.
pub proof fn lemma_gravity_keeps_colors(g: Grid)
    requires
        grid_shape(g),
    ensures
        colored_count(settled(g)) == colored_count(g),
{
    lemma_settled_shape(g);
    lemma_settle_keeps_colors(column(g, 0));
    lemma_settle_keeps_colors(column(g, 1));
    lemma_settle_keeps_colors(column(g, 2));
    lemma_settle_keeps_colors(column(g, 3));
    lemma_settle_keeps_colors(column(g, 4));
    lemma_settle_keeps_colors(column(g, 5));
}

/// A grid holds at most as many colored cells as it has cells.
pub proof fn lemma_count_bound(g: Grid)
    requires
        grid_shape(g),
    ensures
        colored_count(g) <= 78,
{
    lemma_filter_passes(column(g, 0), colored());
    lemma_filter_passes(column(g, 1), colored());
    lemma_filter_passes(column(g, 2), colored());
    lemma_filter_passes(column(g, 3), colored());
    lemma_filter_passes(column(g, 4), colored());
    lemma_filter_passes(column(g, 5), colored());
}

/// Replacing one cell changes the number of colored cells by what the cell
/// lost and gained.
pub proof fn lemma_count_put(g: Grid, p: Cell, v: u8)
    requires
        grid_shape(g),
        in_grid(p),
    ensures
        colored_count(put(g, p.0 as int, p.1 as int, v)) + (if is_color(at(g, p)) {
            1int
        } else {
            0
        }) == colored_count(g) + (if is_color(v) {
            1int
        } else {
            0
        }),
{
    let h = put(g, p.0 as int, p.1 as int, v);
    assert forall|c: int| 0 <= c < COLS implies #[trigger] column(h, c) == (if c == p.1 {
        column(g, c).update(p.0 as int, v)
    } else {
        column(g, c)
    }) by {}
    lemma_filter_update(column(g, p.1 as int), p.0 as int, v, colored());
}

/// A grid that holds a color only where another does has no more colored
/// cells than the other.
pub proof fn lemma_count_mono(g: Grid, h: Grid)
    requires
        grid_shape(g),
        grid_shape(h),
        forall|p: Cell| in_grid(p) && is_color(#[trigger] at(h, p)) ==> is_color(at(g, p)),
    ensures
        colored_count(h) <= colored_count(g),
{
    assert forall|c: int| 0 <= c < COLS implies colored_in(#[trigger] column(h, c)) <= colored_in(
        column(g, c),
    ) by {
        assert forall|i: int| 0 <= i < column(h, c).len() && is_color(
            #[trigger] column(h, c)[i],
        ) implies is_color(column(g, c)[i]) by {
            let p: Cell = (i as usize, c as usize);
            assert(is_color(at(h, p)));
        }
        lemma_colored_in_mono(column(g, c), column(h, c));
    }
}

/// Where `h` holds a color only where `g` does, and the distinct cells of
/// `cells` hold a color in `g` and none in `h`, `h` has that many colored
/// cells fewer, or fewer still.
pub proof fn lemma_count_drop(g: Grid, h: Grid, cells: Seq<Cell>)
    requires
        grid_shape(g),
        grid_shape(h),
        forall|p: Cell| in_grid(p) && is_color(#[trigger] at(h, p)) ==> is_color(at(g, p)),
        cells.no_duplicates(),
        forall|i: int|
            0 <= i < cells.len() ==> in_grid(#[trigger] cells[i]) && is_color(at(g, cells[i]))
                && !is_color(at(h, cells[i])),
    ensures
        colored_count(h) + cells.len() <= colored_count(g),
    decreases cells.len(),
{
    if cells.len() == 0 {
        lemma_count_mono(g, h);
    } else {
        let last = cells.last();
        let back = put(h, last.0 as int, last.1 as int, at(g, last));
        let rest = cells.drop_last();
        assert forall|p: Cell| in_grid(p) && is_color(#[trigger] at(back, p)) implies is_color(
            at(g, p),
        ) by {
            if p != last {
                assert(at(back, p) == at(h, p));
            }
        }
        assert forall|i: int| 0 <= i < rest.len() implies in_grid(#[trigger] rest[i]) && is_color(
            at(g, rest[i]),
        ) && !is_color(at(back, rest[i])) by {}
        lemma_count_drop(g, back, rest);
        lemma_count_put(h, last, at(g, last));
    }
}

} // verus!

//! Cascades: what a grid becomes, and what it scores, when its groups are
//! cleared pass after pass until none is left.
//!
//! A pass clears every group at once and lets the rest fall. Its score is
//! `10 * total * (chain power + color bonus + group bonus)`.

use crate::board::{at, grid_shape, in_grid, is_color, Cell, Grid, COLS, EMPTY, ROWS};
use crate::gravity::{
    colored_count, lemma_count_bound, lemma_count_drop, lemma_gravity_keeps_colors,
    lemma_settled_shape, settled, settled_fill,
};
use crate::groups::{
    component, covers, has_group, leaders, lemma_leaders_upto, lists_groups, qualifies, total_cells,
};
use vstd::prelude::*;

verus! {

/// An upper bound of the score of any cascade.
pub const MAX_CASCADE_SCORE: u32 = 1_637_171_640;

/// `g` with every cell of a group emptied.
pub open spec fn cleared(g: Grid) -> Grid {
    Seq::new(
        ROWS as nat,
        |r: int|
            Seq::new(
                COLS as nat,
                |c: int|
                    if qualifies(g, (r as usize, c as usize)) {
                        EMPTY
                    } else {
                        g[r][c]
                    },
            ),
    )
}

/// `g` after one pass: groups cleared, the rest fallen.
pub open spec fn step(g: Grid) -> Grid {
    settled(cleared(g))
}

/// The bonus for a group of `n` cells.
pub open spec fn size_bonus(n: nat) -> nat {
    if n < 4 {
        0
    } else if n < 10 {
        (n - 4) as nat
    } else {
        8
    }
}

/// The bonus for `n` distinct colors among the groups of a pass.
pub open spec fn color_bonus(n: nat) -> nat {
    if n == 1 {
        0
    } else if n == 2 {
        2
    } else if n == 3 {
        4
    } else if n == 4 {
        8
    } else {
        16
    }
}

/// The chain power of the pass with index `pass`: 0, 8, 16, 32, ...
pub open spec fn chain_power(pass: nat) -> nat
    decreases pass,
{
    if pass == 0 {
        0
    } else if pass == 1 {
        8
    } else {
        2 * chain_power((pass - 1) as nat)
    }
}

/// The sizes of the components of `cells`, added up.
pub open spec fn sum_sizes(g: Grid, cells: Seq<Cell>) -> nat
    decreases cells.len(),
{
    if cells.len() == 0 {
        0
    } else {
        sum_sizes(g, cells.drop_last()) + component(g, cells.last()).len()
    }
}

/// The size bonuses of the components of `cells`, added up.
pub open spec fn sum_bonus(g: Grid, cells: Seq<Cell>) -> nat
    decreases cells.len(),
{
    if cells.len() == 0 {
        0
    } else {
        sum_bonus(g, cells.drop_last()) + size_bonus(component(g, cells.last()).len())
    }
}

/// One of the first `n` cells of `cells` holds the color `k`.
pub open spec fn color_among(g: Grid, cells: Seq<Cell>, n: int, k: u8) -> bool {
    exists|i: int| 0 <= i < n && i < cells.len() && at(g, #[trigger] cells[i]) == k
}

/// The number of colors `1..=5` that the first `n` cells of `cells` hold.
pub open spec fn colors_among(g: Grid, cells: Seq<Cell>, n: int) -> nat {
    (if color_among(g, cells, n, 1) { 1nat } else { 0 })
        + (if color_among(g, cells, n, 2) { 1nat } else { 0 })
        + (if color_among(g, cells, n, 3) { 1nat } else { 0 })
        + (if color_among(g, cells, n, 4) { 1nat } else { 0 })
        + (if color_among(g, cells, n, 5) { 1nat } else { 0 })
}

/// The number of cells that the next pass clears.
pub open spec fn pass_total(g: Grid) -> nat {
    sum_sizes(g, leaders(g))
}

/// The group bonus of the next pass.
pub open spec fn group_bonus(g: Grid) -> nat {
    sum_bonus(g, leaders(g))
}

/// The number of distinct colors among the groups of the next pass.
pub open spec fn distinct_colors(g: Grid) -> nat {
    colors_among(g, leaders(g), leaders(g).len() as int)
}

/// The score of a pass on `g` that is the pass with index `pass` of its
/// cascade.
pub open spec fn pass_score(g: Grid, pass: nat) -> nat {
    10 * pass_total(g) * (chain_power(pass) + color_bonus(distinct_colors(g)) + group_bonus(g))
}

/// A pass on a grid with a group leaves fewer colored cells.
pub proof fn lemma_step_shrinks(g: Grid)
    requires
        grid_shape(g),
        has_group(g),
    ensures
        grid_shape(step(g)),
        colored_count(step(g)) < colored_count(g),
{
    let first = leaders(g)[0];
    lemma_leaders_upto(g, 78);
    let h = cleared(g);
    assert forall|p: Cell| in_grid(p) && is_color(#[trigger] at(h, p)) implies is_color(
        at(g, p),
    ) by {}
    let cells = seq![first];
    lemma_count_drop(g, h, cells);
    lemma_gravity_keeps_colors(h);
    lemma_settled_shape(h);
}

/// The score of the cascade on `g` whose first pass has the index `pass`.
pub open spec fn cascade_score(g: Grid, pass: nat) -> nat
    decreases colored_count(g),
    when grid_shape(g)
{
    if has_group(g) {
        proof {
            lemma_step_shrinks(g);
        }
        pass_score(g, pass) + cascade_score(step(g), pass + 1)
    } else {
        0
    }
}

/// The grid that the cascade on `g` ends with.
pub open spec fn cascade_grid(g: Grid) -> Grid
    decreases colored_count(g),
    when grid_shape(g)
{
    if has_group(g) {
        proof {
            lemma_step_shrinks(g);
        }
        cascade_grid(step(g))
    } else {
        g
    }
}

/// The fill indices after the cascade on `g`, which began with `fill`: those
/// that gravity left, or the old ones where no pass took place.
pub open spec fn cascade_fill(g: Grid, fill: Seq<int>) -> Seq<int> {
    if has_group(g) {
        settled_fill(cascade_grid(g))
    } else {
        fill
    }
}

/// The bonus for a group of `len` cells.
pub fn size_bonus_of(len: usize) -> (bonus: u32)
    ensures
        bonus == size_bonus(len as nat),
{
    if len < 4 {
        0
    } else if len < 10 {
        (len - 4) as u32
    } else {
        8
    }
}

/// The bonus for `n` distinct colors among the groups of a pass.
pub fn color_bonus_of(n: u32) -> (bonus: u32)
    ensures
        bonus == color_bonus(n as nat),
{
    if n == 1 {
        0
    } else if n == 2 {
        2
    } else if n == 3 {
        4
    } else if n == 4 {
        8
    } else {
        16
    }
}

/// Chain power is zero for the first pass only.
pub proof fn lemma_chain_power_positive(pass: nat)
    ensures
        pass > 0 ==> chain_power(pass) >= 8,
        pass == 0 ==> chain_power(pass) == 0,
    decreases pass,
{
    if pass > 1 {
        lemma_chain_power_positive((pass - 1) as nat);
    }
}

/// Chain power never falls from one pass to a later one.
pub proof fn lemma_chain_power_grows(early: nat, late: nat)
    requires
        early <= late,
    ensures
        chain_power(early) <= chain_power(late),
    decreases late,
{
    if early < late {
        lemma_chain_power_grows(early, (late - 1) as nat);
        lemma_chain_power_positive((late - 1) as nat);
    }
}

/// The chain power of the last passes that a grid has cells for.
pub proof fn lemma_chain_power_19()
    ensures
        chain_power(18) == 1_048_576,
        chain_power(19) == 2_097_152,
{
    reveal_with_fuel(chain_power, 20);
}

/// What a list of the groups says of the group with index `i`.
pub proof fn lemma_group_facts(g: Grid, groups: Seq<Seq<Cell>>, i: int)
    requires
        lists_groups(g, groups),
        0 <= i < groups.len(),
    ensures
        groups[i].len() == component(g, leaders(g)[i]).len(),
        groups[i].len() >= 4,
        groups[i][0] == leaders(g)[i],
        in_grid(leaders(g)[i]),
        is_color(at(g, leaders(g)[i])),
{
    lemma_leaders_upto(g, 78);
    groups[i].unique_seq_to_set();
}

/// The sums over the first `i + 1` cells, from those over the first `i`.
pub proof fn lemma_sums_step(g: Grid, cells: Seq<Cell>, i: int)
    requires
        0 <= i < cells.len(),
    ensures
        sum_sizes(g, cells.take(i + 1)) == sum_sizes(g, cells.take(i)) + component(
            g,
            cells[i],
        ).len(),
        sum_bonus(g, cells.take(i + 1)) == sum_bonus(g, cells.take(i)) + size_bonus(
            component(g, cells[i]).len(),
        ),
        forall|k: u8|
            color_among(g, cells, i + 1, k) <==> color_among(g, cells, i, k) || at(g, cells[i])
                == k,
{
    assert(cells.take(i + 1).drop_last() =~= cells.take(i));
    assert forall|k: u8| color_among(g, cells, i + 1, k) <==> color_among(g, cells, i, k) || at(
        g,
        cells[i],
    ) == k by {}
}

/// The first `i + 1` lists hold the cells of the first `i` and those of
/// the list with index `i`; the first `i` hold no more cells than all.
pub proof fn lemma_total_cells_step(groups: Seq<Seq<Cell>>, i: int)
    requires
        0 <= i < groups.len(),
    ensures
        total_cells(groups.take(i + 1)) == total_cells(groups.take(i)) + groups[i].len(),
        total_cells(groups.take(i + 1)) <= total_cells(groups),
    decreases groups.len() - i,
{
    assert(groups.take(i + 1).drop_last() =~= groups.take(i));
    if i + 1 < groups.len() {
        lemma_total_cells_step(groups, i + 1);
    }
}

/// A pass that clears a group leaves at least four colored cells fewer.
pub proof fn lemma_pass_shrinks(g: Grid, groups: Seq<Seq<Cell>>)
    requires
        grid_shape(g),
        lists_groups(g, groups),
        groups.len() > 0,
    ensures
        has_group(g),
        grid_shape(step(g)),
        colored_count(step(g)) + 4 <= colored_count(g),
        colored_count(g) <= 78,
{
    let cells = groups[0];
    lemma_group_facts(g, groups, 0);
    let h = cleared(g);
    assert forall|p: Cell| in_grid(p) && is_color(#[trigger] at(h, p)) implies is_color(
        at(g, p),
    ) by {}
    assert forall|i: int| 0 <= i < cells.len() implies in_grid(#[trigger] cells[i]) && is_color(
        at(g, cells[i]),
    ) && !is_color(at(h, cells[i])) by {
        let q = cells[i];
        assert(covers(groups, q));
    }
    lemma_count_drop(g, h, cells);
    lemma_gravity_keeps_colors(h);
    lemma_settled_shape(h);
    lemma_count_bound(g);
}

} // verus!

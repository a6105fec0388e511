//! Groups: the connected runs of one color that a cascade pass clears.
//!
//! Two cells are connected when a chain of side-by-side cells of one value
//! leads from the first to the second. The component of a cell is the set of
//! cells connected to it. A colored cell qualifies for clearing when its
//! component has at least four cells. Each such component is named by its
//! leader, the cell of it that a row-by-row scan of the grid meets first.

use crate::board::{at, cell_of, in_grid, is_color, scan_index, Cell, Grid, CELLS, COLS, ROWS};
use vstd::prelude::*;

verus! {

/// Smallest size of a component that is cleared.
pub const GROUP_MIN: usize = 4;

/// `a` and `b` share a side.
pub open spec fn adjacent(a: Cell, b: Cell) -> bool {
    ||| a.0 == b.0 && (a.1 + 1 == b.1 || b.1 + 1 == a.1)
    ||| a.1 == b.1 && (a.0 + 1 == b.0 || b.0 + 1 == a.0)
}

/// `path` walks through cells of `g` that all hold the value of its first
/// cell, each step going to a cell that shares a side with the one before.
pub open spec fn is_chain(g: Grid, path: Seq<Cell>) -> bool {
    &&& path.len() > 0
    &&& forall|i: int|
        0 <= i < path.len() ==> in_grid(#[trigger] path[i]) && at(g, path[i]) == at(g, path[0])
    &&& forall|i: int, j: int|
        0 <= i && j == i + 1 && j < path.len() ==> adjacent(#[trigger] path[i], #[trigger] path[j])
}

/// `path` is a chain of `g` from `a` to `b`.
pub open spec fn leads(g: Grid, path: Seq<Cell>, a: Cell, b: Cell) -> bool {
    is_chain(g, path) && path[0] == a && path.last() == b
}

/// A chain of `g` leads from `a` to `b`.
pub open spec fn connected(g: Grid, a: Cell, b: Cell) -> bool {
    exists|path: Seq<Cell>| leads(g, path, a, b)
}

/// The cells connected to `a`.
pub open spec fn component(g: Grid, a: Cell) -> Set<Cell> {
    Set::new(|b: Cell| connected(g, a, b))
}

/// `p` holds a color and lies in a component of at least four cells.
pub open spec fn qualifies(g: Grid, p: Cell) -> bool {
    &&& in_grid(p)
    &&& is_color(at(g, p))
    &&& component(g, p).len() >= GROUP_MIN
}

/// No cell of the component of `p` comes before `p` in a row-by-row scan.
pub open spec fn is_first(g: Grid, p: Cell) -> bool {
    forall|q: Cell| #[trigger] component(g, p).contains(q) ==> scan_index(p) <= scan_index(q)
}

/// `p` is the first cell of a component that is cleared.
pub open spec fn is_leader(g: Grid, p: Cell) -> bool {
    qualifies(g, p) && is_first(g, p)
}

/// The leaders among the first `n` cells of a row-by-row scan, in scan order.
pub open spec fn leaders_upto(g: Grid, n: nat) -> Seq<Cell>
    decreases n,
{
    if n == 0 {
        Seq::empty()
    } else {
        let p = cell_of(n - 1);
        if is_leader(g, p) {
            leaders_upto(g, (n - 1) as nat).push(p)
        } else {
            leaders_upto(g, (n - 1) as nat)
        }
    }
}

/// The leaders of `g`, one for each group that the next pass clears.
pub open spec fn leaders(g: Grid) -> Seq<Cell> {
    leaders_upto(g, CELLS as nat)
}

/// `g` holds at least one group to clear.
pub open spec fn has_group(g: Grid) -> bool {
    leaders(g).len() > 0
}

/// `cells` lists the component of `leader` once each, the leader first.
pub open spec fn is_group(g: Grid, cells: Seq<Cell>, leader: Cell) -> bool {
    &&& cells.len() > 0
    &&& cells[0] == leader
    &&& cells.no_duplicates()
    &&& cells.to_set() == component(g, leader)
}

/// Some list of `groups` holds `p`.
pub open spec fn covers(groups: Seq<Seq<Cell>>, p: Cell) -> bool {
    exists|i: int| 0 <= i < groups.len() && (#[trigger] groups[i]).contains(p)
}

/// The number of cells that `groups` lists.
pub open spec fn total_cells(groups: Seq<Seq<Cell>>) -> nat
    decreases groups.len(),
{
    if groups.len() == 0 {
        0
    } else {
        total_cells(groups.drop_last()) + groups.last().len()
    }
}

/// `s` holds, with each of its cells, the neighbours of the same value.
pub open spec fn closed_under_links(g: Grid, s: Set<Cell>) -> bool {
    forall|x: Cell, y: Cell|
        s.contains(x) && in_grid(y) && #[trigger] adjacent(x, y) && at(g, y) == at(g, x)
            ==> s.contains(y)
}

/// The marks that a search of the grid keeps, one for each cell.
pub type Marks = [[bool; COLS]; ROWS];

/// The mark of `p`.
pub open spec fn flag(marks: Marks, p: Cell) -> bool {
    marks[p.0 as int][p.1 as int]
}

/// The cells that are marked.
pub open spec fn marked(marks: Marks) -> Set<Cell> {
    Set::new(|p: Cell| in_grid(p) && flag(marks, p))
}

/// The marks read row by row.
pub open spec fn flags(marks: Marks) -> Seq<bool> {
    Seq::new(CELLS as nat, |i: int| flag(marks, cell_of(i)))
}

/// The number of entries that are `false`.
pub open spec fn count_false(s: Seq<bool>) -> nat
    decreases s.len(),
{
    if s.len() == 0 {
        0
    } else {
        count_false(s.drop_last()) + (if s.last() {
            0nat
        } else {
            1nat
        })
    }
}

/// The number of cells that are not marked.
pub open spec fn unmarked(marks: Marks) -> nat {
    count_false(flags(marks))
}

/// The lists of cells that a vector of groups holds.
pub open spec fn lists(groups: Seq<Vec<Cell>>) -> Seq<Seq<Cell>> {
    Seq::new(groups.len(), |i: int| groups[i]@)
}

/// `groups` lists the groups of `g`: one list for each leader, in scan
/// order, each holding the component of its leader once, the leader first.
pub open spec fn lists_groups(g: Grid, groups: Seq<Seq<Cell>>) -> bool {
    &&& groups.len() == leaders(g).len()
    &&& forall|i: int| 0 <= i < groups.len() ==> is_group(g, #[trigger] groups[i], leaders(g)[i])
    &&& forall|p: Cell| #[trigger] covers(groups, p) <==> qualifies(g, p)
    &&& total_cells(groups) <= CELLS
}

/// What holds while the grid is scanned for groups, once the first `n`
/// cells have been read: `marks` are the marks and `groups` the groups so
/// far.
pub open spec fn scan_inv(g: Grid, marks: Marks, groups: Seq<Seq<Cell>>, n: int) -> bool {
    &&& closed_under_links(g, marked(marks))
    &&& forall|p: Cell|
        in_grid(p) && scan_index(p) < n && is_color(at(g, p)) ==> #[trigger] flag(marks, p)
    &&& forall|p: Cell|
        in_grid(p) && #[trigger] flag(marks, p) && scan_index(p) >= n ==> !is_first(g, p)
    &&& groups.len() == leaders_upto(g, n as nat).len()
    &&& forall|i: int|
        0 <= i < groups.len() ==> is_group(g, #[trigger] groups[i], leaders_upto(g, n as nat)[i])
    &&& forall|p: Cell|
        in_grid(p) && #[trigger] flag(marks, p) ==> (covers(groups, p) <==> qualifies(g, p))
    &&& forall|p: Cell| #[trigger] covers(groups, p) ==> in_grid(p) && flag(marks, p)
    &&& total_cells(groups) + unmarked(marks) <= CELLS
}

/// A sequence has no more `false` entries than entries.
pub proof fn lemma_count_false_bound(s: Seq<bool>)
    ensures
        count_false(s) <= s.len(),
    decreases s.len(),
{
    if s.len() > 0 {
        lemma_count_false_bound(s.drop_last());
    }
}

/// Setting an entry that was `false` leaves one `false` entry fewer.
pub proof fn lemma_count_false_set(s: Seq<bool>, i: int)
    requires
        0 <= i < s.len(),
        !s[i],
    ensures
        count_false(s.update(i, true)) + 1 == count_false(s),
    decreases s.len(),
{
    let t = s.update(i, true);
    if i == s.len() - 1 {
        assert(t.drop_last() =~= s.drop_last());
    } else {
        lemma_count_false_set(s.drop_last(), i);
        assert(t.drop_last() =~= s.drop_last().update(i, true));
    }
}

/// Marking a cell that was not marked leaves one unmarked cell fewer.
pub proof fn lemma_mark(before: Marks, after: Marks, p: Cell)
    requires
        in_grid(p),
        !flag(before, p),
        flag(after, p),
        forall|q: Cell| in_grid(q) && q != p ==> flag(after, q) == flag(before, q),
    ensures
        unmarked(after) + 1 == unmarked(before),
        unmarked(before) <= CELLS,
{
    crate::board::lemma_scan_index(p);
    assert forall|i: int| 0 <= i < CELLS implies #[trigger] flags(after)[i] == flags(before).update(
        scan_index(p),
        true,
    )[i] by {
        crate::board::lemma_cell_of(i);
    }
    assert(flags(after) =~= flags(before).update(scan_index(p), true));
    lemma_count_false_set(flags(before), scan_index(p));
    lemma_count_false_bound(flags(before));
}

/// What holds while the component of `start` is searched: `before` are the
/// marks at the start and `now` the marks so far; `group` lists the cells
/// whose neighbours have been seen, but for those after the first `done`;
/// `stack` lists the cells that were found and wait their turn.
pub open spec fn search_inv(
    g: Grid,
    start: Cell,
    before: Marks,
    now: Marks,
    group: Seq<Cell>,
    stack: Seq<Cell>,
    done: int,
) -> bool {
    &&& group.no_duplicates()
    &&& stack.no_duplicates()
    &&& forall|i: int, j: int|
        0 <= i < group.len() && 0 <= j < stack.len() ==> #[trigger] group[i] != #[trigger] stack[j]
    &&& forall|i: int|
        0 <= i < group.len() ==> in_grid(#[trigger] group[i]) && connected(g, start, group[i])
            && !flag(before, group[i])
    &&& forall|i: int|
        0 <= i < stack.len() ==> in_grid(#[trigger] stack[i]) && connected(g, start, stack[i])
            && !flag(before, stack[i])
    &&& forall|p: Cell|
        in_grid(p) ==> (#[trigger] flag(now, p) <==> flag(before, p) || group.contains(p)
            || stack.contains(p))
    &&& 0 <= done <= group.len()
    &&& forall|i: int, q: Cell|
        0 <= i < done && in_grid(q) && #[trigger] adjacent(group[i], q) && at(g, q) == at(g, start)
            ==> flag(now, q)
    &&& group.len() + stack.len() + unmarked(now) == unmarked(before)
    &&& (group.len() > 0 ==> group[0] == start)
    &&& (group.len() == 0 ==> stack =~= seq![start])
}

/// A search begins with its start marked and waiting on the stack.
pub proof fn lemma_search_start(g: Grid, start: Cell, before: Marks, now: Marks)
    requires
        in_grid(start),
        !flag(before, start),
        flag(now, start),
        forall|q: Cell| in_grid(q) && q != start ==> flag(now, q) == flag(before, q),
    ensures
        search_inv(g, start, before, now, Seq::empty(), seq![start], 0),
{
    let group = Seq::<Cell>::empty();
    let stack = seq![start];
    lemma_connected_refl(g, start);
    lemma_mark(before, now, start);
    assert forall|p: Cell| in_grid(p) implies (#[trigger] flag(now, p) <==> flag(before, p)
        || group.contains(p) || stack.contains(p)) by {
        if p == start {
            assert(stack[0] == start);
        }
    }
}

/// The search takes the top of the stack into the group.
pub proof fn lemma_search_take(
    g: Grid,
    start: Cell,
    before: Marks,
    now: Marks,
    group: Seq<Cell>,
    stack: Seq<Cell>,
)
    requires
        stack.len() > 0,
        search_inv(g, start, before, now, group, stack, group.len() as int),
    ensures
        search_inv(
            g,
            start,
            before,
            now,
            group.push(stack.last()),
            stack.drop_last(),
            group.len() as int,
        ),
{
    let x = stack.last();
    let group2 = group.push(x);
    let stack2 = stack.drop_last();
    assert forall|i: int, j: int| 0 <= i < j < group2.len() implies group2[i] != group2[j] by {}
    assert forall|i: int, j: int| 0 <= i < group2.len() && 0 <= j < stack2.len() implies
        #[trigger] group2[i] != #[trigger] stack2[j] by {}
    assert forall|i: int| 0 <= i < group2.len() implies in_grid(#[trigger] group2[i]) && connected(
        g,
        start,
        group2[i],
    ) && !flag(before, group2[i]) by {}
    assert forall|i: int| 0 <= i < stack2.len() implies in_grid(#[trigger] stack2[i]) && connected(
        g,
        start,
        stack2[i],
    ) && !flag(before, stack2[i]) by {}
    assert forall|p: Cell| in_grid(p) implies (#[trigger] flag(now, p) <==> flag(before, p)
        || group2.contains(p) || stack2.contains(p)) by {
        if group.contains(p) {
            let i = choose|i: int| 0 <= i < group.len() && group[i] == p;
            assert(group2[i] == p);
        }
        if stack.contains(p) {
            let j = choose|j: int| 0 <= j < stack.len() && stack[j] == p;
            if j == stack.len() - 1 {
                assert(group2[group.len() as int] == p);
            } else {
                assert(stack2[j] == p);
            }
        }
    }
    assert forall|i: int, q: Cell|
        0 <= i < group.len() && in_grid(q) && #[trigger] adjacent(group2[i], q) && at(g, q) == at(
            g,
            start,
        ) implies flag(now, q) by {}
}

/// The search marks a neighbour of the cell it is working on, and puts it on
/// the stack.
pub proof fn lemma_search_push(
    g: Grid,
    start: Cell,
    before: Marks,
    now: Marks,
    next: Marks,
    group: Seq<Cell>,
    stack: Seq<Cell>,
    p: Cell,
)
    requires
        group.len() > 0,
        search_inv(g, start, before, now, group, stack, group.len() - 1),
        in_grid(p),
        adjacent(group.last(), p),
        at(g, p) == at(g, start),
        !flag(now, p),
        flag(next, p),
        forall|q: Cell| in_grid(q) && q != p ==> flag(next, q) == flag(now, q),
    ensures
        search_inv(g, start, before, next, group, stack.push(p), group.len() - 1),
{
    let stack2 = stack.push(p);
    let from = group[group.len() - 1];
    lemma_connected_ends(g, start, from);
    lemma_connected_step(g, start, from, p);
    lemma_mark(now, next, p);
    assert forall|i: int, j: int| 0 <= i < j < stack2.len() implies stack2[i] != stack2[j] by {}
    assert forall|i: int, j: int| 0 <= i < group.len() && 0 <= j < stack2.len() implies
        #[trigger] group[i] != #[trigger] stack2[j] by {}
    assert forall|i: int| 0 <= i < stack2.len() implies in_grid(#[trigger] stack2[i]) && connected(
        g,
        start,
        stack2[i],
    ) && !flag(before, stack2[i]) by {}
    assert forall|q: Cell| in_grid(q) implies (#[trigger] flag(next, q) <==> flag(before, q)
        || group.contains(q) || stack2.contains(q)) by {
        if q == p {
            assert(stack2[stack.len() as int] == p);
        } else {
            if stack.contains(q) {
                let j = choose|j: int| 0 <= j < stack.len() && stack[j] == q;
                assert(stack2[j] == q);
            }
        }
    }
    assert forall|i: int, q: Cell|
        0 <= i < group.len() - 1 && in_grid(q) && #[trigger] adjacent(group[i], q) && at(g, q)
            == at(g, start) implies flag(next, q) by {}
}

/// A search that has nothing left to do has found the component of its
/// start, and its marks are closed again.
pub proof fn lemma_search_done(g: Grid, start: Cell, before: Marks, now: Marks, group: Seq<Cell>)
    requires
        in_grid(start),
        !flag(before, start),
        closed_under_links(g, marked(before)),
        search_inv(g, start, before, now, group, Seq::empty(), group.len() as int),
    ensures
        is_group(g, group, start),
        closed_under_links(g, marked(now)),
        forall|p: Cell|
            in_grid(p) ==> (#[trigger] flag(now, p) <==> flag(before, p) || component(
                g,
                start,
            ).contains(p)),
        forall|p: Cell| component(g, start).contains(p) ==> !flag(before, p),
{
    assert(group.len() > 0);
    assert forall|x: Cell, y: Cell|
        marked(now).contains(x) && in_grid(y) && #[trigger] adjacent(x, y) && at(g, y) == at(
            g,
            x,
        ) implies marked(now).contains(y) by {
        if !flag(before, x) {
            let i = choose|i: int| 0 <= i < group.len() && group[i] == x;
            lemma_connected_ends(g, start, group[i]);
        }
    }
    assert forall|p: Cell| component(g, start).contains(p) implies group.contains(p) && !flag(
        before,
        p,
    ) by {
        lemma_closed_component(g, marked(now), start, p);
        lemma_closed_component(g, marked(before), start, p);
    }
    assert forall|p: Cell| group.contains(p) implies component(g, start).contains(p) by {}
    assert(group.to_set() =~= component(g, start));
    assert forall|p: Cell| in_grid(p) implies (#[trigger] flag(now, p) <==> flag(before, p)
        || component(g, start).contains(p)) by {}
}

/// A cell of the grid is connected to itself.
pub proof fn lemma_connected_refl(g: Grid, a: Cell)
    requires
        in_grid(a),
    ensures
        connected(g, a, a),
{
    assert(leads(g, seq![a], a, a));
}

/// Both ends of a chain lie in the grid and hold the same value.
pub proof fn lemma_connected_ends(g: Grid, a: Cell, b: Cell)
    requires
        connected(g, a, b),
    ensures
        in_grid(a),
        in_grid(b),
        at(g, a) == at(g, b),
{
}

/// A chain can be extended by one neighbour of the same value.
pub proof fn lemma_connected_step(g: Grid, a: Cell, b: Cell, c: Cell)
    requires
        connected(g, a, b),
        in_grid(c),
        adjacent(b, c),
        at(g, c) == at(g, b),
    ensures
        connected(g, a, c),
{
    let path = choose|path: Seq<Cell>| leads(g, path, a, b);
    let longer = path.push(c);
    assert forall|i: int| 0 <= i < longer.len() implies in_grid(#[trigger] longer[i]) && at(
        g,
        longer[i],
    ) == at(g, longer[0]) by {}
    assert forall|i: int, j: int| 0 <= i && j == i + 1 && j < longer.len() implies adjacent(
        #[trigger] longer[i],
        #[trigger] longer[j],
    ) by {}
    assert(leads(g, longer, a, c));
}

/// A chain can be walked backwards.
pub proof fn lemma_connected_sym(g: Grid, a: Cell, b: Cell)
    requires
        connected(g, a, b),
    ensures
        connected(g, b, a),
{
    let path = choose|path: Seq<Cell>| leads(g, path, a, b);
    let back = Seq::new(path.len(), |i: int| path[path.len() - 1 - i]);
    assert forall|i: int| 0 <= i < back.len() implies in_grid(#[trigger] back[i]) && at(g, back[i])
        == at(g, back[0]) by {}
    assert forall|i: int, j: int| 0 <= i && j == i + 1 && j < back.len() implies adjacent(
        #[trigger] back[i],
        #[trigger] back[j],
    ) by {}
    assert(leads(g, back, b, a));
}

/// Two chains that meet make one.
pub proof fn lemma_connected_trans(g: Grid, a: Cell, b: Cell, c: Cell)
    requires
        connected(g, a, b),
        connected(g, b, c),
    ensures
        connected(g, a, c),
{
    let head = choose|path: Seq<Cell>| leads(g, path, a, b);
    let rest = choose|path: Seq<Cell>| leads(g, path, b, c);
    let tail = rest.subrange(1, rest.len() as int);
    let path = head + tail;
    assert forall|i: int| 0 <= i < path.len() implies in_grid(#[trigger] path[i]) && at(g, path[i])
        == at(g, path[0]) by {}
    assert forall|i: int, j: int| 0 <= i && j == i + 1 && j < path.len() implies adjacent(
        #[trigger] path[i],
        #[trigger] path[j],
    ) by {}
    assert(leads(g, path, a, c));
}

/// Connected cells have the same component.
pub proof fn lemma_component_shared(g: Grid, a: Cell, b: Cell)
    requires
        connected(g, a, b),
    ensures
        component(g, a) == component(g, b),
{
    lemma_connected_sym(g, a, b);
    assert forall|q: Cell| component(g, a).contains(q) <==> component(g, b).contains(q) by {
        if connected(g, a, q) {
            lemma_connected_trans(g, b, a, q);
        }
        if connected(g, b, q) {
            lemma_connected_trans(g, a, b, q);
        }
    }
}

/// A chain that touches a closed set lies in it.
pub proof fn lemma_chain_stays(g: Grid, s: Set<Cell>, path: Seq<Cell>, i: int, j: int)
    requires
        closed_under_links(g, s),
        is_chain(g, path),
        0 <= i < path.len(),
        0 <= j < path.len(),
        s.contains(path[i]),
    ensures
        s.contains(path[j]),
    decreases (if i <= j { j - i } else { i - j }),
{
    if i < j {
        lemma_chain_stays(g, s, path, i, j - 1);
    } else if i > j {
        lemma_chain_stays(g, s, path, i, j + 1);
        assert(adjacent(path[j + 1], path[j]));
    }
}

/// A closed set holds the whole component of each of its cells, and none of
/// the component of a cell outside it.
pub proof fn lemma_closed_component(g: Grid, s: Set<Cell>, a: Cell, b: Cell)
    requires
        closed_under_links(g, s),
        connected(g, a, b),
    ensures
        s.contains(a) == s.contains(b),
{
    let path = choose|path: Seq<Cell>| leads(g, path, a, b);
    if s.contains(a) {
        lemma_chain_stays(g, s, path, 0, path.len() - 1);
    }
    if s.contains(b) {
        lemma_chain_stays(g, s, path, path.len() - 1, 0);
    }
}

/// Every entry of `leaders_upto` is a leader, and the entries come in scan
/// order.
pub proof fn lemma_leaders_upto(g: Grid, n: nat)
    requires
        n <= CELLS,
    ensures
        forall|i: int|
            0 <= i < leaders_upto(g, n).len() ==> is_leader(g, #[trigger] leaders_upto(g, n)[i])
                && scan_index(leaders_upto(g, n)[i]) < n,
        forall|i: int, j: int|
            0 <= i < j < leaders_upto(g, n).len() ==> scan_index(#[trigger] leaders_upto(g, n)[i])
                < scan_index(#[trigger] leaders_upto(g, n)[j]),
        leaders_upto(g, n).len() <= n,
    decreases n,
{
    if n > 0 {
        lemma_leaders_upto(g, (n - 1) as nat);
        crate::board::lemma_cell_of(n - 1);
    }
}

/// A leader among the first `n` cells is listed in `leaders_upto(g, n)`.
pub proof fn lemma_leader_listed(g: Grid, n: nat, p: Cell)
    requires
        n <= CELLS,
        in_grid(p),
        is_leader(g, p),
        scan_index(p) < n,
    ensures
        leaders_upto(g, n).contains(p),
    decreases n,
{
    crate::board::lemma_scan_index(p);
    if scan_index(p) == n - 1 {
        let s = leaders_upto(g, (n - 1) as nat).push(p);
        assert(s[s.len() - 1] == p);
    } else {
        lemma_leader_listed(g, (n - 1) as nat, p);
        let prev = leaders_upto(g, (n - 1) as nat);
        let i = choose|i: int| 0 <= i < prev.len() && prev[i] == p;
        assert(leaders_upto(g, n)[i] == p);
    }
}

/// A component with a cell among the first `n` of a row-by-row scan has a
/// cell that the scan meets first.
pub proof fn lemma_first_exists(g: Grid, p: Cell, n: nat) -> (first: Cell)
    requires
        n <= CELLS,
        exists|q: Cell| #[trigger] component(g, p).contains(q) && scan_index(q) < n,
    ensures
        component(g, p).contains(first),
        forall|q: Cell|
            #[trigger] component(g, p).contains(q) ==> scan_index(first) <= scan_index(q),
    decreases n,
{
    let some = choose|q: Cell| #[trigger] component(g, p).contains(q) && scan_index(q) < n;
    lemma_connected_ends(g, p, some);
    if exists|q: Cell| #[trigger] component(g, p).contains(q) && scan_index(q) < n - 1 {
        lemma_first_exists(g, p, (n - 1) as nat)
    } else {
        assert forall|q: Cell| #[trigger] component(g, p).contains(q) implies scan_index(some)
            <= scan_index(q) by {
            lemma_connected_ends(g, p, q);
        }
        some
    }
}

/// A grid has a group to clear just when one of its cells qualifies for
/// clearing.
pub proof fn lemma_group_exists(g: Grid)
    ensures
        has_group(g) <==> exists|p: Cell| qualifies(g, p),
{
    lemma_leaders_upto(g, CELLS as nat);
    if has_group(g) {
        assert(qualifies(g, leaders(g)[0]));
    }
    if exists|p: Cell| qualifies(g, p) {
        let p = choose|p: Cell| qualifies(g, p);
        lemma_connected_refl(g, p);
        crate::board::lemma_scan_index(p);
        assert(component(g, p).contains(p) && scan_index(p) < CELLS);
        let first = lemma_first_exists(g, p, CELLS as nat);
        lemma_connected_ends(g, p, first);
        lemma_component_shared(g, p, first);
        crate::board::lemma_scan_index(first);
        lemma_leader_listed(g, CELLS as nat, first);
    }
}

/// A scan begins with no mark and no group.
pub proof fn lemma_scan_begin(g: Grid, marks: Marks)
    requires
        forall|p: Cell| in_grid(p) ==> !flag(marks, p),
    ensures
        scan_inv(g, marks, Seq::empty(), 0),
{
    lemma_count_false_bound(flags(marks));
    let groups = Seq::<Seq<Cell>>::empty();
    assert forall|p: Cell| #[trigger] covers(groups, p) implies in_grid(p) && flag(marks, p) by {}
}

/// The scan passes over a cell that holds no color or is marked: it leads
/// no group.
pub proof fn lemma_scan_skip(g: Grid, marks: Marks, groups: Seq<Seq<Cell>>, n: int)
    requires
        0 <= n < CELLS,
        scan_inv(g, marks, groups, n),
        !is_color(at(g, cell_of(n))) || flag(marks, cell_of(n)),
    ensures
        scan_inv(g, marks, groups, n + 1),
{
    crate::board::lemma_cell_of(n);
    assert forall|q: Cell| in_grid(q) && scan_index(q) < n + 1 && is_color(at(g, q)) implies
        #[trigger] flag(marks, q) by {
        if scan_index(q) == n {
            crate::board::lemma_scan_index(q);
        }
    }
}

/// The scan has met an unmarked colored cell and searched its component:
/// the cell is the first of its component, and leads a group if the
/// component has four cells.
pub proof fn lemma_scan_found(
    g: Grid,
    before: Marks,
    after: Marks,
    groups: Seq<Seq<Cell>>,
    n: int,
    group: Seq<Cell>,
)
    requires
        0 <= n < CELLS,
        scan_inv(g, before, groups, n),
        is_color(at(g, cell_of(n))),
        !flag(before, cell_of(n)),
        is_group(g, group, cell_of(n)),
        closed_under_links(g, marked(after)),
        forall|p: Cell|
            in_grid(p) ==> (#[trigger] flag(after, p) <==> flag(before, p) || component(
                g,
                cell_of(n),
            ).contains(p)),
        forall|p: Cell| component(g, cell_of(n)).contains(p) ==> !flag(before, p),
        group.len() + unmarked(after) == unmarked(before),
    ensures
        component(g, cell_of(n)).len() == group.len(),
        scan_inv(
            g,
            after,
            if group.len() >= GROUP_MIN {
                groups.push(group)
            } else {
                groups
            },
            n + 1,
        ),
{
    let p = cell_of(n);
    crate::board::lemma_cell_of(n);
    let comp = component(g, p);
    let taken = group.len() >= GROUP_MIN;
    let groups2 = if taken {
        groups.push(group)
    } else {
        groups
    };
    group.unique_seq_to_set();
    lemma_connected_refl(g, p);
    assert(is_first(g, p)) by {
        assert forall|q: Cell| #[trigger] comp.contains(q) implies scan_index(p) <= scan_index(
            q,
        ) by {
            if scan_index(q) < n {
                assert(flag(before, q));
            }
        }
    }
    let old_leaders = leaders_upto(g, n as nat);
    let new_leaders = leaders_upto(g, (n + 1) as nat);
    assert(new_leaders == if taken {
        old_leaders.push(p)
    } else {
        old_leaders
    });
    assert forall|q: Cell| in_grid(q) && scan_index(q) < n + 1 && is_color(at(g, q)) implies
        #[trigger] flag(after, q) by {
        if scan_index(q) == n {
            crate::board::lemma_scan_index(q);
        }
    }
    assert forall|q: Cell| in_grid(q) && #[trigger] flag(after, q) && scan_index(q) >= n + 1 implies
        !is_first(g, q) by {
        if !flag(before, q) {
            lemma_connected_sym(g, p, q);
            assert(component(g, q).contains(p));
        }
    }
    assert forall|i: int| 0 <= i < groups2.len() implies is_group(
        g,
        #[trigger] groups2[i],
        new_leaders[i],
    ) by {}
    assert forall|q: Cell| #[trigger] covers(groups2, q) implies in_grid(q) && flag(after, q) by {
        let i = choose|i: int| 0 <= i < groups2.len() && (#[trigger] groups2[i]).contains(q);
        if i < groups.len() {
            assert(covers(groups, q));
        } else {
            assert(group.to_set().contains(q));
        }
    }
    assert forall|q: Cell| in_grid(q) && #[trigger] flag(after, q) implies (covers(groups2, q)
        <==> qualifies(g, q)) by {
        if flag(before, q) {
            if covers(groups, q) {
                let i = choose|i: int| 0 <= i < groups.len() && (#[trigger] groups[i]).contains(q);
                assert(groups2[i].contains(q));
            }
            if covers(groups2, q) {
                let i = choose|i: int|
                    0 <= i < groups2.len() && (#[trigger] groups2[i]).contains(q);
            }
        } else {
            lemma_connected_ends(g, p, q);
            lemma_component_shared(g, p, q);
            if taken {
                assert(groups2[groups.len() as int].contains(q));
            }
        }
    }
    if taken {
        assert(groups2.drop_last() =~= groups);
    }
}

/// A scan that has read every cell has listed the groups of the grid.
pub proof fn lemma_scan_end(g: Grid, marks: Marks, groups: Seq<Seq<Cell>>)
    requires
        scan_inv(g, marks, groups, CELLS as int),
    ensures
        lists_groups(g, groups),
{
    assert forall|p: Cell| #[trigger] covers(groups, p) <==> qualifies(g, p) by {
        if qualifies(g, p) {
            assert(flag(marks, p));
        }
    }
}

} // verus!

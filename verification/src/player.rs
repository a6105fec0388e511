//! One player's board: the grid, the fill index of each column, the score,
//! and the points that have not yet been sent to the opponent as garbage.

use crate::board::{
    at, column, empty_grid, grid_of, grid_shape, in_grid, Cell, COLS, EMPTY, FLOOR, GARBAGE, ROWS,
};
use crate::cascade::{
    cascade_fill, cascade_grid, cascade_score, chain_power, cleared, color_among, color_bonus_of,
    colors_among, lemma_chain_power_19, lemma_chain_power_grows, lemma_chain_power_positive,
    lemma_group_facts, lemma_pass_shrinks, lemma_sums_step, lemma_total_cells_step, pass_score,
    size_bonus_of, sum_bonus, sum_sizes, MAX_CASCADE_SCORE,
};
use crate::errors::GameError;
use crate::gravity::{
    colored_count, lemma_gravity_idempotent, lemma_kept_grow, occupied, resting_fill, settle_column,
    settled, settled_fill,
};
use crate::groups::{
    adjacent, closed_under_links, component, covers, flag, has_group, is_group, leaders,
    lemma_leaders_upto, lemma_scan_begin, lemma_scan_end, lemma_scan_found, lemma_scan_skip,
    lemma_search_done, lemma_search_push, lemma_search_start, lemma_search_take, lists,
    lists_groups, marked, scan_inv, search_inv, total_cells, unmarked, Marks, GROUP_MIN,
};
use crate::laws::{lemma_cascade_guard, lemma_placed_wf};
use crate::state::{
    lemma_first_with, lemma_least_fill_above, lemma_least_fill_is, PlayerState, MOVES,
    NUISANCE_PER_ROW,
};
use vstd::prelude::*;

verus! {

/// What a cell value looks like in a printed row.
pub open spec fn glyph(v: u8) -> char {
    if v == EMPTY {
        '-'
    } else if v < 10 {
        (48 + v) as char
    } else {
        '?'
    }
}

/// One player's board.
#[derive(Clone, Copy)]
pub struct Player {
    board: [[u8; COLS]; ROWS],
    score: u32,
    nuisance: u32,
    bottom: [usize; COLS],
}

impl View for Player {
    type V = PlayerState;

    closed spec fn view(&self) -> PlayerState {
        PlayerState {
            grid: grid_of(self.board),
            fill: Seq::new(COLS as nat, |c: int| self.bottom[c] as int),
            score: self.score as nat,
            nuisance: self.nuisance as nat,
        }
    }
}

impl Player {
    /// Every fill index is a row of the grid.
    pub open spec fn wf(&self) -> bool {
        self@.wf()
    }

    /// What a new board stands for: every cell empty, every column free
    /// from the floor up, no points.
    pub open spec fn new_state() -> PlayerState {
        PlayerState {
            grid: empty_grid(),
            fill: Seq::new(COLS as nat, |c: int| FLOOR as int),
            score: 0,
            nuisance: 0,
        }
    }

    /// An empty board with no points.
    pub fn new() -> (p: Player)
        ensures
            p.wf(),
            p@ == Player::new_state(),
    {
        let p = Player {
            board: [[EMPTY; COLS]; ROWS],
            score: 0,
            nuisance: 0,
            bottom: [FLOOR; COLS],
        };
        assert(p@.fill =~= Seq::new(COLS as nat, |c: int| FLOOR as int));
        assert(p@.grid =~~= empty_grid());
        p
    }

    /// The points earned so far.
    pub fn get_score(&self) -> (score: u32)
        ensures
            score == self@.score,
    {
        self.score
    }

    /// The points earned and not yet turned into garbage.
    pub fn get_nuisance(&self) -> (nuisance: u32)
        ensures
            nuisance == self@.nuisance,
    {
        self.nuisance
    }

    /// Turns the pending points into rows of garbage for the opponent, one
    /// row for every 70 points, and keeps the remainder.
    pub fn apply_nuisance(&mut self) -> (rows: u32)
        ensures
            rows == old(self)@.garbage_rows(),
            final(self)@ == old(self)@.drained(),
    {
        let rows = self.nuisance / NUISANCE_PER_ROW;
        self.nuisance %= NUISANCE_PER_ROW;
        rows
    }

    /// Marks the cell in row `row`, column `col` and puts it on the stack,
    /// unless it is marked already or holds another value than `color`.
    fn visit(
        &self,
        row: usize,
        col: usize,
        color: u8,
        visited: &mut Marks,
        stack: &mut Vec<Cell>,
        Ghost(start): Ghost<Cell>,
        Ghost(before): Ghost<Marks>,
        Ghost(group): Ghost<Seq<Cell>>,
    )
        requires
            row < ROWS,
            col < COLS,
            group.len() > 0,
            adjacent(group.last(), (row, col)),
            color == at(self@.grid, start),
            search_inv(
                self@.grid,
                start,
                before,
                *old(visited),
                group,
                old(stack)@,
                group.len() - 1,
            ),
        ensures
            search_inv(
                self@.grid,
                start,
                before,
                *final(visited),
                group,
                final(stack)@,
                group.len() - 1,
            ),
            forall|p: Cell| in_grid(p) && flag(*old(visited), p) ==> flag(*final(visited), p),
            at(self@.grid, (row, col)) == color ==> flag(*final(visited), (row, col)),
    {
        if !visited[row][col] && self.board[row][col] == color {
            let ghost now = *visited;
            visited[row][col] = true;
            stack.push((row, col));
            proof {
                lemma_search_push(
                    self@.grid,
                    start,
                    before,
                    now,
                    *visited,
                    group,
                    old(stack)@,
                    (row, col),
                );
            }
        }
    }

    /// Collects the component of the cell in row `row`, column `col`, that
    /// cell first, and marks its cells.
    fn dfs(&self, row: usize, col: usize, visited: &mut Marks) -> (group: Vec<Cell>)
        requires
            row < ROWS,
            col < COLS,
            !flag(*old(visited), (row, col)),
            closed_under_links(self@.grid, marked(*old(visited))),
        ensures
            is_group(self@.grid, group@, (row, col)),
            closed_under_links(self@.grid, marked(*final(visited))),
            forall|p: Cell|
                in_grid(p) ==> (#[trigger] flag(*final(visited), p) <==> flag(*old(visited), p)
                    || component(self@.grid, (row, col)).contains(p)),
            forall|p: Cell|
                component(self@.grid, (row, col)).contains(p) ==> !flag(*old(visited), p),
            group@.len() + unmarked(*final(visited)) == unmarked(*old(visited)),
    {
        let ghost g = self@.grid;
        let ghost start: Cell = (row, col);
        let ghost before = *visited;
        let color = self.board[row][col];
        let mut group: Vec<Cell> = Vec::new();
        let mut stack: Vec<Cell> = Vec::new();
        visited[row][col] = true;
        stack.push((row, col));
        proof {
            lemma_search_start(g, start, before, *visited);
        }
        while stack.len() > 0
            invariant
                g == self@.grid,
                start == (row, col),
                in_grid(start),
                color == at(g, start),
                search_inv(g, start, before, *visited, group@, stack@, group@.len() as int),
            decreases stack@.len() + unmarked(*visited),
        {
            let ghost old_group = group@;
            let ghost old_stack = stack@;
            let cell = stack.pop().unwrap();
            let r = cell.0;
            let c = cell.1;
            group.push(cell);
            proof {
                lemma_search_take(g, start, before, *visited, old_group, old_stack);
            }
            if c + 1 < COLS {
                self.visit(
                    r,
                    c + 1,
                    color,
                    visited,
                    &mut stack,
                    Ghost(start),
                    Ghost(before),
                    Ghost(group@),
                );
            }
            if r + 1 < ROWS {
                self.visit(
                    r + 1,
                    c,
                    color,
                    visited,
                    &mut stack,
                    Ghost(start),
                    Ghost(before),
                    Ghost(group@),
                );
            }
            if c > 0 {
                self.visit(
                    r,
                    c - 1,
                    color,
                    visited,
                    &mut stack,
                    Ghost(start),
                    Ghost(before),
                    Ghost(group@),
                );
            }
            if r > 0 {
                self.visit(
                    r - 1,
                    c,
                    color,
                    visited,
                    &mut stack,
                    Ghost(start),
                    Ghost(before),
                    Ghost(group@),
                );
            }
        }
        proof {
            lemma_search_done(g, start, before, *visited, group@);
        }
        group
    }

    /// The groups that the next pass clears: one list of cells for each
    /// component of four or more cells of one color, in the order in which
    /// a row-by-row scan meets them.
    pub fn find_groups(&self) -> (groups: Vec<Vec<Cell>>)
        ensures
            lists_groups(self@.grid, lists(groups@)),
    {
        let ghost g = self@.grid;
        let mut groups: Vec<Vec<Cell>> = Vec::new();
        let mut visited: Marks = [[false; COLS]; ROWS];
        proof {
            lemma_scan_begin(g, visited);
        }
        for row in 0..ROWS
            invariant
                g == self@.grid,
                scan_inv(g, visited, lists(groups@), row * COLS),
        {
            for col in 0..COLS
                invariant
                    g == self@.grid,
                    row < ROWS,
                    scan_inv(g, visited, lists(groups@), row * COLS + col),
            {
                let ghost n = (row * COLS + col) as int;
                let ghost found = lists(groups@);
                let value = self.board[row][col];
                if !visited[row][col] && value > 0 && value < 6 {
                    let ghost before = visited;
                    let group = self.dfs(row, col, &mut visited);
                    proof {
                        lemma_scan_found(g, before, visited, found, n, group@);
                    }
                    if group.len() >= GROUP_MIN {
                        groups.push(group);
                        proof {
                            assert(lists(groups@) =~= found.push(group@));
                        }
                    }
                } else {
                    proof {
                        lemma_scan_skip(g, visited, found, n);
                    }
                }
            }
        }
        proof {
            lemma_scan_end(g, visited, lists(groups@));
        }
        groups
    }

    /// Lets the balls of every column fall to the floor, and sets the fill
    /// indices anew. The guard row stays as it is.
    pub fn apply_gravity(&mut self)
        ensures
            final(self).wf(),
            final(self)@ == (PlayerState {
                grid: settled(old(self)@.grid),
                fill: settled_fill(old(self)@.grid),
                ..old(self)@
            }),
    {
        let ghost g = self@.grid;
        for col in 0..COLS
            invariant
                g == old(self)@.grid,
                self.score == old(self).score,
                self.nuisance == old(self).nuisance,
                forall|c: int, r: int|
                    0 <= c < col && 0 <= r < ROWS ==> #[trigger] self.board[r][c] == settle_column(
                        column(g, c),
                    )[r],
                forall|c: int|
                    0 <= c < col ==> #[trigger] self.bottom[c] == resting_fill(column(g, c)),
                forall|c: int, r: int|
                    col <= c < COLS && 0 <= r < ROWS ==> #[trigger] self.board[r][c] == g[r][c],
        {
            let ghost s = column(g, col as int);
            let ghost snap = self.board;
            let ghost fills = self.bottom;
            let mut write: usize = FLOOR;
            let mut read: usize = ROWS;
            while read > 1
                invariant
                    col < COLS,
                    1 <= read <= ROWS,
                    write <= FLOOR,
                    s == column(g, col as int),
                    self.score == old(self).score,
                    self.nuisance == old(self).nuisance,
                    self.bottom == fills,
                    write == FLOOR - s.subrange(read as int, ROWS as int).filter(occupied()).len(),
                    forall|r: int|
                        write < r <= FLOOR ==> #[trigger] self.board[r][col as int] == s.subrange(
                            read as int,
                            ROWS as int,
                        ).filter(occupied())[r - write - 1],
                    forall|r: int|
                        read <= r <= write ==> #[trigger] self.board[r][col as int] == EMPTY,
                    forall|r: int| 0 <= r < read ==> #[trigger] self.board[r][col as int] == s[r],
                    forall|c: int, r: int|
                        0 <= c < COLS && c != col && 0 <= r < ROWS ==> #[trigger] self.board[r][c]
                            == snap[r][c],
                decreases read,
            {
                read -= 1;
                proof {
                    lemma_kept_grow(s, read as int);
                }
                let value = self.board[read][col];
                if value != EMPTY {
                    self.board[write][col] = value;
                    if write != read {
                        self.board[read][col] = EMPTY;
                    }
                    write -= 1;
                }
            }
            self.bottom[col] = write;
        }
        proof {
            assert(self@.grid =~~= settled(g));
            assert(self@.fill =~= settled_fill(g));
        }
    }

    /// Empties every cell that `groups` lists.
    fn remove_groups(&mut self, groups: &Vec<Vec<Cell>>)
        requires
            forall|p: Cell| #[trigger] covers(lists(groups@), p) ==> in_grid(p),
        ensures
            final(self)@.fill == old(self)@.fill,
            final(self)@.score == old(self)@.score,
            final(self)@.nuisance == old(self)@.nuisance,
            grid_shape(final(self)@.grid),
            forall|p: Cell|
                in_grid(p) ==> #[trigger] at(final(self)@.grid, p) == (if covers(
                    lists(groups@),
                    p,
                ) {
                    EMPTY
                } else {
                    at(old(self)@.grid, p)
                }),
    {
        let ghost gs = lists(groups@);
        for i in 0..groups.len()
            invariant
                gs == lists(groups@),
                forall|p: Cell| #[trigger] covers(gs, p) ==> in_grid(p),
                self.bottom == old(self).bottom,
                self.score == old(self).score,
                self.nuisance == old(self).nuisance,
                forall|p: Cell|
                    in_grid(p) ==> #[trigger] self.board[p.0 as int][p.1 as int] == (if covers(
                        gs.take(i as int),
                        p,
                    ) {
                        EMPTY
                    } else {
                        old(self).board[p.0 as int][p.1 as int]
                    }),
        {
            let group = &groups[i];
            let ghost done = gs.take(i as int);
            let ghost cells = gs[i as int];
            for j in 0..group.len()
                invariant
                    gs == lists(groups@),
                    i < groups.len(),
                    done == gs.take(i as int),
                    cells == gs[i as int],
                    cells == group@,
                    forall|p: Cell| #[trigger] covers(gs, p) ==> in_grid(p),
                    self.bottom == old(self).bottom,
                    self.score == old(self).score,
                    self.nuisance == old(self).nuisance,
                    forall|p: Cell|
                        in_grid(p) ==> #[trigger] self.board[p.0 as int][p.1 as int] == (if covers(
                            done,
                            p,
                        ) || cells.take(j as int).contains(p) {
                            EMPTY
                        } else {
                            old(self).board[p.0 as int][p.1 as int]
                        }),
            {
                let cell = group[j];
                proof {
                    assert(covers(gs, cell));
                    let seen = cells.take(j as int);
                    let next = cells.take(j + 1);
                    assert forall|p: Cell|
                        next.contains(p) <==> (seen.contains(p) || p == cell) by {
                        if p == cell {
                            assert(next[j as int] == p);
                        }
                    }
                }
                self.board[cell.0][cell.1] = EMPTY;
            }
            proof {
                assert(cells.take(cells.len() as int) =~= cells);
                assert forall|p: Cell| covers(gs.take(i + 1), p) <==> (covers(done, p)
                    || cells.contains(p)) by {
                    let next = gs.take(i + 1);
                    if cells.contains(p) {
                        assert(next[i as int].contains(p));
                    }
                }
            }
        }
        proof {
            assert(gs.take(gs.len() as int) =~= gs);
        }
    }

    /// The size, the group bonus and the number of distinct colors of the
    /// pass that clears `groups`.
    fn tally(&self, groups: &Vec<Vec<Cell>>) -> (sums: (u32, u32, u32))
        requires
            lists_groups(self@.grid, lists(groups@)),
        ensures
            sums.0 == sum_sizes(self@.grid, leaders(self@.grid)),
            sums.1 == sum_bonus(self@.grid, leaders(self@.grid)),
            sums.2 == colors_among(
                self@.grid,
                leaders(self@.grid),
                leaders(self@.grid).len() as int,
            ),
            sums.0 <= 78,
            sums.1 <= 78,
    {
        let ghost g = self@.grid;
        let ghost gs = lists(groups@);
        let ghost ls = leaders(g);
        let mut count_group: [u32; 5] = [0, 0, 0, 0, 0];
        let mut total: u32 = 0;
        let mut bonus: u32 = 0;
        for i in 0..groups.len()
            invariant
                g == self@.grid,
                gs == lists(groups@),
                ls == leaders(g),
                lists_groups(g, gs),
                total == sum_sizes(g, ls.take(i as int)),
                total == total_cells(gs.take(i as int)),
                total <= 78,
                bonus == sum_bonus(g, ls.take(i as int)),
                bonus <= total,
                forall|k: int| 0 <= k < 5 ==> #[trigger] count_group[k] <= i,
                forall|k: int|
                    0 <= k < 5 ==> (#[trigger] count_group[k] > 0 <==> color_among(
                        g,
                        ls,
                        i as int,
                        (k + 1) as u8,
                    )),
        {
            let group = &groups[i];
            proof {
                lemma_group_facts(g, gs, i as int);
                lemma_sums_step(g, ls, i as int);
                lemma_total_cells_step(gs, i as int);
            }
            let first = group[0];
            let color = self.board[first.0][first.1] as usize;
            proof {
                lemma_leaders_upto(g, 78);
            }
            count_group[color - 1] += 1;
            total += group.len() as u32;
            bonus += size_bonus_of(group.len());
        }
        proof {
            assert(ls.take(ls.len() as int) =~= ls);
        }
        let mut distinct: u32 = 0;
        if count_group[0] > 0 {
            distinct += 1;
        }
        if count_group[1] > 0 {
            distinct += 1;
        }
        if count_group[2] > 0 {
            distinct += 1;
        }
        if count_group[3] > 0 {
            distinct += 1;
        }
        if count_group[4] > 0 {
            distinct += 1;
        }
        (total, bonus, distinct)
    }

    /// Clears the groups pass after pass, letting the rest fall after each
    /// pass, until no group is left. Returns the score of the cascade.
    pub fn process_board(&mut self) -> (score: u32)
        ensures
            score == cascade_score(old(self)@.grid, 0),
            score <= MAX_CASCADE_SCORE,
            final(self)@ == (PlayerState {
                grid: cascade_grid(old(self)@.grid),
                fill: cascade_fill(old(self)@.grid, old(self)@.fill),
                ..old(self)@
            }),
            old(self).wf() ==> final(self).wf(),
            old(self)@.guard_free() ==> final(self)@.guard_free(),
    {
        let ghost g0 = self@.grid;
        let ghost mut pass: nat = 0;
        let mut score: u32 = 0;
        let mut changed = true;
        let mut cp: u32 = 0;
        while changed
            invariant
                g0 == old(self)@.grid,
                grid_shape(self@.grid),
                self@.score == old(self)@.score,
                self@.nuisance == old(self)@.nuisance,
                changed ==> cp == chain_power(pass),
                changed ==> colored_count(self@.grid) + 4 * pass <= 78,
                !changed ==> !has_group(self@.grid),
                pass <= 19,
                score + cascade_score(self@.grid, pass) == cascade_score(g0, 0),
                cascade_grid(self@.grid) == cascade_grid(g0),
                changed ==> score <= 780 * (cp + 94 * pass),
                score <= MAX_CASCADE_SCORE,
                pass == 0 ==> self@ == old(self)@,
                pass > 0 ==> has_group(g0) && self.wf() && self@.fill == settled_fill(
                    self@.grid,
                ),
            decreases colored_count(self@.grid) + (if changed { 1int } else { 0 }),
        {
            let ghost g = self@.grid;
            changed = false;
            let groups = self.find_groups();
            if groups.len() > 0 {
                proof {
                    lemma_pass_shrinks(g, lists(groups@));
                    lemma_chain_power_grows(pass, 18);
                    lemma_chain_power_19();
                    lemma_chain_power_positive(pass);
                }
                let sums = self.tally(&groups);
                let total = sums.0;
                let gb = sums.1;
                let cb = color_bonus_of(sums.2);
                assert((10 * total) * (cp + cb + gb) <= 780 * (cp + 94)) by (nonlinear_arith)
                    requires
                        total <= 78,
                        cb <= 16,
                        gb <= 78,
                ;
                assert((10 * total) * (cp + cb + gb) == pass_score(g, pass)) by (nonlinear_arith)
                    requires
                        pass_score(g, pass) == 10 * (total as nat) * (cp as nat + cb as nat
                            + gb as nat),
                ;
                score += (10 * total) * (cp + cb + gb);
                self.remove_groups(&groups);
                proof {
                    assert forall|r: int, c: int| 0 <= r < ROWS && 0 <= c < COLS implies
                        #[trigger] self@.grid[r][c] == cleared(g)[r][c] by {
                        let p: Cell = (r as usize, c as usize);
                        assert(self@.grid[r][c] == at(self@.grid, p));
                    }
                    assert(self@.grid =~~= cleared(g));
                }
                self.apply_gravity();
                proof {
                    lemma_gravity_idempotent(cleared(g));
                }
                cp = if cp == 0 {
                    8
                } else {
                    cp * 2
                };
                proof {
                    pass = pass + 1;
                }
                changed = true;
            }
        }
        proof {
            if old(self)@.guard_free() {
                lemma_cascade_guard(g0);
            }
        }
        score
    }

    /// A board with the cells `board` and the fill indices `bottom`, and no
    /// points. `None` where a fill index is no row of the grid.
    pub fn from_parts(board: [[u8; COLS]; ROWS], bottom: [usize; COLS]) -> (made: Option<Player>)
        ensures
            made.is_some() == (forall|c: int| 0 <= c < COLS ==> #[trigger] bottom[c] <= FLOOR),
            made matches Some(p) ==> {
                &&& p.wf()
                &&& p@.grid == grid_of(board)
                &&& p@.fill == Seq::new(COLS as nat, |c: int| bottom[c] as int)
                &&& p@.score == 0
                &&& p@.nuisance == 0
            },
    {
        for col in 0..COLS
            invariant
                forall|c: int| 0 <= c < col ==> #[trigger] bottom[c] <= FLOOR,
        {
            if bottom[col] > FLOOR {
                return None;
            }
        }
        Some(Player { board, score: 0, nuisance: 0, bottom })
    }

    /// The cells, row by row from the guard row down to the floor.
    pub fn get_board(&self) -> (board: [[u8; COLS]; ROWS])
        ensures
            grid_of(board) == self@.grid,
    {
        self.board
    }

    /// For each column, the row of its next free cell.
    pub fn get_bottom(&self) -> (bottom: [usize; COLS])
        ensures
            bottom@.len() == COLS,
            forall|c: int| 0 <= c < COLS ==> #[trigger] bottom[c] == self@.fill[c],
    {
        self.bottom
    }

    /// Takes all points away.
    pub fn reset_score(&mut self)
        ensures
            final(self)@ == (PlayerState { score: 0, ..old(self)@ }),
    {
        self.score = 0;
    }

    /// The points and the pending points leave room for the score of one
    /// more cascade.
    pub fn has_headroom(&self) -> (ok: bool)
        ensures
            ok == self@.has_headroom(),
    {
        self.score <= u32::MAX - MAX_CASCADE_SCORE && self.nuisance <= u32::MAX - MAX_CASCADE_SCORE
    }

    /// Adds `num_rows` rows of garbage: one ball on top of each column in
    /// turn, row after row. Fails at the first ball that finds its column
    /// full; the balls before it stay.
    pub fn add_heads(&mut self, num_rows: u32) -> (res: Result<(), GameError>)
        requires
            old(self).wf(),
        ensures
            final(self).wf(),
            res.is_ok() == old(self)@.can_take(num_rows as nat),
            final(self)@ == old(self)@.with_garbage(num_rows as nat),
    {
        let ghost start = self@;
        proof {
            assert(self@ =~~= start.stacked(Seq::new(COLS as nat, |c: int| 0int))) by {
                let made = start.stacked(Seq::new(COLS as nat, |c: int| 0int));
                assert(made.grid =~~= start.grid);
                assert(made.fill =~= start.fill);
            }
        }
        for row in 0..num_rows
            invariant
                start == old(self)@,
                start.wf(),
                self.wf(),
                forall|c: int| 0 <= c < COLS ==> #[trigger] start.fill[c] >= row,
                self@ == start.stacked(Seq::new(COLS as nat, |c: int| row as int)),
        {
            proof {
                let a = Seq::new(
                    COLS as nat,
                    |c: int|
                        if c < 0 {
                            row + 1
                        } else {
                            row as int
                        },
                );
                let b = Seq::new(COLS as nat, |c: int| row as int);
                assert(a =~= b);
            }
            for col in 0..COLS
                invariant
                    start == old(self)@,
                    start.wf(),
                    self.wf(),
                    row < num_rows,
                    forall|c: int| 0 <= c < COLS ==> #[trigger] start.fill[c] >= row,
                    forall|c: int| 0 <= c < col ==> #[trigger] start.fill[c] > row,
                    self@ == start.stacked(
                        Seq::new(
                            COLS as nat,
                            |c: int|
                                if c < col {
                                    row + 1
                                } else {
                                    row as int
                                },
                        ),
                    ),
            {
                let ghost adds = Seq::new(
                    COLS as nat,
                    |c: int|
                        if c < col {
                            row + 1
                        } else {
                            row as int
                        },
                );
                let ghost more = Seq::new(
                    COLS as nat,
                    |c: int|
                        if c < col + 1 {
                            row + 1
                        } else {
                            row as int
                        },
                );
                match self.drop(col, GARBAGE) {
                    Ok(()) => {
                        proof {
                            let made = start.stacked(more);
                            assert(self@.fill =~= made.fill);
                            assert(self@.grid =~~= made.grid);
                        }
                    },
                    Err(e) => {
                        proof {
                            let full = Seq::new(
                                COLS as nat,
                                |c: int| start.garbage_in(num_rows as nat, c),
                            );
                            lemma_least_fill_is(start.fill, COLS as int, row as int);
                            lemma_first_with(start.fill, row as int, 0, col as int);
                            assert(full =~= adds);
                        }
                        return Err(e);
                    },
                }
            }
            proof {
                let a = Seq::new(
                    COLS as nat,
                    |c: int|
                        if c < COLS {
                            row + 1
                        } else {
                            row as int
                        },
                );
                let b = Seq::new(COLS as nat, |c: int| (row + 1) as int);
                assert(a =~= b);
            }
        }
        proof {
            let full = Seq::new(COLS as nat, |c: int| start.garbage_in(num_rows as nat, c));
            let even = Seq::new(COLS as nat, |c: int| num_rows as int);
            lemma_least_fill_above(start.fill, COLS as int, num_rows as int);
            assert(full =~= even);
        }
        Ok(())
    }

    /// Lets the two balls of the piece `balls` fall as move `position` says:
    /// the first ball, then the second. Fails when a ball finds its column
    /// full; a first ball that found room stays. Nothing is cleared.
    pub fn place(&mut self, balls: u8, position: u8) -> (res: Result<(), GameError>)
        requires
            old(self).wf(),
            position < MOVES,
        ensures
            final(self).wf(),
            res.is_ok() == old(self)@.can_place(position),
            final(self)@ == old(self)@.placed(balls, position),
            old(self)@.guard_free() ==> final(self)@.guard_free(),
    {
        proof {
            lemma_placed_wf(old(self)@, balls, position);
        }
        let c1 = balls >> 4;
        let c2 = balls & 0xF;
        if position < 6 {
            let p = position as usize;
            self.drop(p, c1)?;
            self.drop(p, c2)?;
        } else if position < 12 {
            let p = (position - 6) as usize;
            self.drop(p, c2)?;
            self.drop(p, c1)?;
        } else if position < 17 {
            let p = (position - 12) as usize;
            self.drop(p, c1)?;
            self.drop(p + 1, c2)?;
        } else {
            let p = (position - 17) as usize;
            self.drop(p, c2)?;
            self.drop(p + 1, c1)?;
        }
        Ok(())
    }

    /// Clears the groups, pass after pass, and adds the score of the cascade
    /// to the points and to the pending points.
    pub fn resolve(&mut self)
        requires
            old(self).wf(),
            old(self)@.has_headroom(),
        ensures
            final(self).wf(),
            final(self)@ == old(self)@.resolved(),
            old(self)@.guard_free() ==> final(self)@.guard_free(),
    {
        let score = self.process_board();
        self.score += score;
        self.nuisance += score;
    }

    /// Lets the two balls of the piece `balls` fall as move `position` says,
    /// then clears the groups and adds the score of the cascade to the
    /// points and to the pending points. Fails, without a cascade, when a
    /// ball finds its column full; a first ball that found room stays.
    pub fn play(&mut self, balls: u8, position: u8) -> (res: Result<(), GameError>)
        requires
            old(self).wf(),
            position < MOVES,
            old(self)@.has_headroom(),
        ensures
            final(self).wf(),
            res.is_ok() == old(self)@.can_place(position),
            final(self)@ == old(self)@.played(balls, position),
            old(self)@.guard_free() ==> final(self)@.guard_free(),
    {
        self.place(balls, position)?;
        self.resolve();
        Ok(())
    }

    /// Row `row` of the grid as six characters: `-` for an empty cell, the
    /// digit of a ball, `?` for any other value.
    pub fn get_row(&self, row: usize) -> (text: String)
        requires
            row < ROWS,
        ensures
            text@ == Seq::new(COLS as nat, |c: int| glyph(self@.grid[row as int][c])),
    {
        let mut ans = String::new();
        for col in 0..COLS
            invariant
                row < ROWS,
                ans@ == Seq::new(col as nat, |c: int| glyph(self@.grid[row as int][c])),
        {
            let value = self.board[row][col];
            push_char(&mut ans, glyph_of(value));
        }
        ans
    }

    /// Lets the ball `value` fall into column `col`: it comes to rest at the
    /// fill index of the column, which then moves up by one. Fails, and
    /// changes nothing, when the column has no free cell below the guard
    /// row.
    pub fn drop(&mut self, col: usize, value: u8) -> (res: Result<(), GameError>)
        requires
            old(self).wf(),
            col < COLS,
        ensures
            final(self).wf(),
            res.is_ok() == old(self)@.can_drop(col as int),
            res.is_ok() ==> final(self)@ == old(self)@.dropped(col as int, value),
            res.is_err() ==> final(self)@ == old(self)@,
    {
        proof {
            assert(old(self)@.fill[col as int] == self.bottom[col as int]);
        }
        if self.bottom[col] > 0 {
            self.board[self.bottom[col]][col] = value;
            self.bottom[col] -= 1;
            proof {
                let after = old(self)@.dropped(col as int, value);
                assert(self@.grid =~~= after.grid);
                assert(self@.fill =~= after.fill);
            }
            return Ok(());
        }
        Err(GameError::BoardIsFull)
    }
}

/// What a cell value looks like in a printed row.
pub fn glyph_of(v: u8) -> (c: char)
    ensures
        c == glyph(v),
{
    if v == EMPTY {
        '-'
    } else if v < 10 {
        (48 + v) as char
    } else {
        '?'
    }
}

/// `String::push` of std appends one character to the end of a string.
#[verifier::external_body]
fn push_char(text: &mut String, c: char)
    ensures
        final(text)@ == old(text)@.push(c),
{
    text.push(c)
}

} // verus!

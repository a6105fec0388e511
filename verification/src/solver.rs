//! The solver: it plays many games from the present state with random
//! moves, keeps for each first move how the games ended, and picks the move
//! with the best ratio of games won to games lost.

use crate::game::{Game, GameState, Outcome};
use crate::state::{first_column, MOVES};
use crate::rng::{draw, get_piece, is_piece, seeded};
use rand::rngs::StdRng;
use vstd::prelude::*;

verus! {

/// Number of games that `solve` plays.
pub const TRIALS: u32 = 2000;

/// Seed of the generator that `solve` draws from.
pub const SEED: u64 = 222;

/// Number of rounds after which a game that has not ended is given up.
pub const MAX_ROUNDS: u32 = 100_000;

/// What the games that began with one move came to.
#[derive(Clone, Copy, Debug)]
pub struct Score {
    /// The largest lead in points at the end of a game, and 0 at least.
    pub max_diff: i32,
    /// The points of the first player at the end of the games, added up.
    pub sum_score: i32,
    /// The number of games won.
    pub num_win: i32,
    /// The number of games lost.
    pub num_lose: i32,
}

/// The numerator of the ratio of games won to games lost: with no game
/// lost, 1 where a game was won, for a ratio without bound, and 0 otherwise.
pub open spec fn ratio_num(s: Score) -> int {
    if s.num_lose > 0 {
        s.num_win as int
    } else if s.num_win > 0 {
        1
    } else {
        0
    }
}

/// The denominator of the ratio of games won to games lost: with no game
/// lost, 0 where a game was won, for a ratio without bound, and 1 otherwise.
pub open spec fn ratio_den(s: Score) -> int {
    if s.num_lose > 0 {
        s.num_lose as int
    } else if s.num_win > 0 {
        0
    } else {
        1
    }
}

/// The ratio of games won to games lost of `a` is above that of `b`.
pub open spec fn ratio_above(a: Score, b: Score) -> bool {
    ratio_num(a) * ratio_den(b) > ratio_num(b) * ratio_den(a)
}

/// Move `m` has the best ratio of `stats`, and is the first that has it.
pub open spec fn is_best(stats: Seq<Score>, m: int) -> bool {
    &&& 0 <= m < stats.len()
    &&& forall|j: int| 0 <= j < stats.len() ==> !ratio_above(#[trigger] stats[j], stats[m])
    &&& forall|j: int| 0 <= j < m ==> ratio_above(stats[m], #[trigger] stats[j])
}

/// How the balls of move `position` lie: 0 upright, 1 flat, 2 upright with
/// the colors swapped, 3 flat with the colors swapped.
pub open spec fn orientation(position: u8) -> int {
    if position < 6 {
        0
    } else if position < 12 {
        2
    } else if position < 17 {
        1
    } else {
        3
    }
}

/// `choice` is the column and the orientation of a move.
pub open spec fn is_choice(choice: (u8, u8)) -> bool {
    exists|m: u8| m < MOVES && choice.0 == first_column(m) && choice.1 == #[trigger] orientation(m)
}

/// One round of a random game: the move of each player, and the piece that
/// was added after the round.
pub struct Round {
    /// The move of the first player.
    pub my_action: u8,
    /// The move of the opponent.
    pub opp_action: u8,
    /// The piece added to the pieces to come.
    pub piece: u8,
}

impl Round {
    /// Both moves are moves, and the piece holds two colors.
    pub open spec fn wf(self) -> bool {
        self.my_action < MOVES && self.opp_action < MOVES && is_piece(self.piece)
    }
}

/// The game after the rounds `rounds` were played from `start`.
pub open spec fn after_rounds(start: GameState, rounds: Seq<Round>) -> GameState
    decreases rounds.len(),
{
    if rounds.len() == 0 {
        start
    } else {
        let round = rounds.last();
        let after = after_rounds(start, rounds.drop_last()).after_round(
            round.my_action,
            round.opp_action,
        );
        GameState { queue: after.queue.push(round.piece), ..after }
    }
}

/// How the round with index `i` of `rounds` ended.
pub open spec fn outcome_of(start: GameState, rounds: Seq<Round>, i: int) -> Outcome {
    after_rounds(start, rounds.take(i)).round_outcome(rounds[i].my_action, rounds[i].opp_action)
}

/// `rounds` is a game played on from `start` that ended as `end` says: each
/// round could be played, and all but the last went on. With `Some`, the
/// last round decided the game, and `end` holds the first move of the first
/// player and whether that player won. With `None`, the game was given up
/// undecided: `MAX_ROUNDS` had been played, or a board had no room left
/// for the score of a cascade.
pub open spec fn is_playout(start: GameState, rounds: Seq<Round>, end: Option<(u8, bool)>) -> bool {
    &&& rounds.len() <= MAX_ROUNDS
    &&& forall|i: int| 0 <= i < rounds.len() ==> (#[trigger] rounds[i]).wf()
    &&& forall|i: int|
        0 <= i < rounds.len() ==> (#[trigger] after_rounds(start, rounds.take(i))).can_step()
    &&& forall|i: int|
        0 <= i < rounds.len() - 1 ==> #[trigger] outcome_of(start, rounds, i)
            == Outcome::InProgress
    &&& match end {
        Some(pair) => {
            &&& rounds.len() > 0
            &&& pair.0 == rounds[0].my_action
            &&& outcome_of(start, rounds, rounds.len() - 1) == (if pair.1 {
                Outcome::SelfWins
            } else {
                Outcome::SelfLoses
            })
        },
        None => {
            &&& rounds.len() > 0 ==> outcome_of(start, rounds, rounds.len() - 1)
                == Outcome::InProgress
            &&& rounds.len() == MAX_ROUNDS || !after_rounds(start, rounds).can_step()
        },
    }
}

/// A game that was played to its end: the first move of the first player,
/// whether that player won, and the points of both at the end.
pub struct Ended {
    /// The first move of the first player.
    pub first: u8,
    /// Whether the first player won.
    pub won: bool,
    /// The points of the first player at the end.
    pub my_score: u32,
    /// The points of the opponent at the end.
    pub opp_score: u32,
}

/// `game` is the end of a game played on from `start`.
pub open spec fn is_ended(start: GameState, game: Ended) -> bool {
    exists|rounds: Seq<Round>|
        {
            &&& #[trigger] is_playout(start, rounds, Some((game.first, game.won)))
            &&& game.my_score == after_rounds(start, rounds).me.score
            &&& game.opp_score == after_rounds(start, rounds).opp.score
        }
}

/// The records before any game: one for each move, all zero.
pub open spec fn fresh_stats() -> Seq<Score> {
    Seq::new(
        MOVES as nat,
        |i: int| Score { max_diff: 0, sum_score: 0, num_win: 0, num_lose: 0 },
    )
}

/// A game played on from `start` can be given up undecided.
pub open spec fn is_given_up(start: GameState) -> bool {
    exists|rounds: Seq<Round>| #[trigger] is_playout(start, rounds, None)
}

/// The records after the games `trials`, each one ended or given up
/// (`None`). A game that ended is added to the record of its first move,
/// unless that would take a number of the record out of its range. A game
/// that was given up is added to no record.
pub open spec fn tallied(trials: Seq<Option<Ended>>) -> Seq<Score>
    decreases trials.len(),
{
    if trials.len() == 0 {
        fresh_stats()
    } else {
        let stats = tallied(trials.drop_last());
        match trials.last() {
            Some(game) => {
                let record = stats[game.first as int];
                if record.can_credit(game.my_score, game.opp_score) {
                    stats.update(
                        game.first as int,
                        record.credited(game.won, game.my_score, game.opp_score),
                    )
                } else {
                    stats
                }
            },
            None => stats,
        }
    }
}

/// The game with index `i` of `trials` ended and is added to a record.
pub open spec fn is_counted(trials: Seq<Option<Ended>>, i: int) -> bool {
    trials[i] matches Some(game) && tallied(trials.take(i))[game.first as int].can_credit(
        game.my_score,
        game.opp_score,
    )
}

/// The number of games of `trials` that are added to a record.
pub open spec fn counted(trials: Seq<Option<Ended>>) -> nat
    decreases trials.len(),
{
    if trials.len() == 0 {
        0
    } else {
        counted(trials.drop_last()) + (if is_counted(trials, trials.len() - 1) {
            1nat
        } else {
            0
        })
    }
}

/// The number of games that the records `stats` hold: games won and games
/// lost, over all moves.
pub open spec fn games_in(stats: Seq<Score>) -> int
    decreases stats.len(),
{
    if stats.len() == 0 {
        0
    } else {
        games_in(stats.drop_last()) + stats.last().num_win + stats.last().num_lose
    }
}

/// `trials` are games played on from `start`: each of them ended, with a
/// move as its first move, or was given up.
pub open spec fn is_trial_log(start: GameState, trials: Seq<Option<Ended>>) -> bool {
    forall|i: int|
        0 <= i < trials.len() ==> match #[trigger] trials[i] {
            Some(game) => game.first < MOVES && is_ended(start, game),
            None => is_given_up(start),
        }
}

/// `choice` is the move that the games `trials`, played on from `start`,
/// speak for: the first move with the best ratio of their records.
pub open spec fn is_solution(
    start: GameState,
    trials: Seq<Option<Ended>>,
    choice: (u8, u8),
) -> bool {
    &&& is_trial_log(start, trials)
    &&& exists|m: u8|
        is_best(tallied(trials), m as int) && choice.0 == first_column(m) && choice.1
            == #[trigger] orientation(m)
}

impl Score {
    /// The record before any game.
    pub fn new() -> (s: Score)
        ensures
            s.max_diff == 0,
            s.sum_score == 0,
            s.num_win == 0,
            s.num_lose == 0,
    {
        Score { max_diff: 0, sum_score: 0, num_win: 0, num_lose: 0 }
    }

    /// A game that ended with `my_score` points against `opp_score` can be
    /// added without a number leaving its range.
    pub open spec fn can_credit(self, my_score: u32, opp_score: u32) -> bool {
        &&& my_score <= i32::MAX
        &&& opp_score <= i32::MAX
        &&& self.sum_score + my_score <= i32::MAX
        &&& self.num_win < i32::MAX
        &&& self.num_lose < i32::MAX
    }

    /// The record after a game that was won or lost with `my_score` points
    /// against `opp_score`.
    pub open spec fn credited(self, won: bool, my_score: u32, opp_score: u32) -> Score {
        Score {
            max_diff: if my_score - opp_score > self.max_diff {
                (my_score - opp_score) as i32
            } else {
                self.max_diff
            },
            sum_score: (self.sum_score + my_score) as i32,
            num_win: if won {
                (self.num_win + 1) as i32
            } else {
                self.num_win
            },
            num_lose: if won {
                self.num_lose
            } else {
                (self.num_lose + 1) as i32
            },
        }
    }

    /// Adds a game that was won or lost with `my_score` points against
    /// `opp_score`.
    pub fn credit(&mut self, won: bool, my_score: u32, opp_score: u32)
        requires
            old(self).can_credit(my_score, opp_score),
        ensures
            *final(self) == old(self).credited(won, my_score, opp_score),
    {
        let delta = my_score as i32 - opp_score as i32;
        if won {
            self.num_win += 1;
        } else {
            self.num_lose += 1;
        }
        self.sum_score += my_score as i32;
        if delta > self.max_diff {
            self.max_diff = delta;
        }
    }

    /// Adds a game that was won or lost with `my_score` points against
    /// `opp_score`, where that can be done without a number leaving its
    /// range, and says whether it was done.
    pub fn try_credit(&mut self, won: bool, my_score: u32, opp_score: u32) -> (done: bool)
        ensures
            done == old(self).can_credit(my_score, opp_score),
            done ==> *final(self) == old(self).credited(won, my_score, opp_score),
            !done ==> *final(self) == *old(self),
    {
        if my_score <= i32::MAX as u32 && opp_score <= i32::MAX as u32 && self.num_win < i32::MAX
            && self.num_lose < i32::MAX && self.sum_score <= i32::MAX - my_score as i32 {
            self.credit(won, my_score, opp_score);
            true
        } else {
            false
        }
    }
}

/// The column and the orientation of move `position`.
pub fn decode(position: u8) -> (choice: (u8, u8))
    requires
        position < MOVES,
    ensures
        choice.0 == first_column(position),
        choice.1 == orientation(position),
        is_choice(choice),
{
    if position < 6 {
        (position, 0)
    } else if position < 12 {
        (position - 6, 2)
    } else if position < 17 {
        (position - 12, 1)
    } else {
        (position - 17, 3)
    }
}

/// A ratio above one that is not below another is above that other.
pub proof fn lemma_ratio_order(a: Score, b: Score, c: Score)
    requires
        a.num_win >= 0 && a.num_lose >= 0,
        b.num_win >= 0 && b.num_lose >= 0,
        c.num_win >= 0 && c.num_lose >= 0,
        ratio_above(a, b),
        !ratio_above(c, b),
    ensures
        ratio_above(a, c),
{
    let na = ratio_num(a);
    let da = ratio_den(a);
    let nb = ratio_num(b);
    let db = ratio_den(b);
    let nc = ratio_num(c);
    let dc = ratio_den(c);
    assert(na * dc > nc * da) by (nonlinear_arith)
        requires
            na >= 0 && da >= 0 && nb >= 0 && db >= 0 && nc >= 0 && dc >= 0,
            na + da > 0 && nb + db > 0 && nc + dc > 0,
            na * db > nb * da,
            nc * db <= nb * dc,
    ;
}

/// Whether the ratio of games won to games lost of `a` is above that of
/// `b`.
pub fn has_ratio_above(a: &Score, b: &Score) -> (above: bool)
    requires
        a.num_win >= 0 && a.num_lose >= 0,
        b.num_win >= 0 && b.num_lose >= 0,
    ensures
        above == ratio_above(*a, *b),
{
    let na: i64 = if a.num_lose > 0 {
        a.num_win as i64
    } else if a.num_win > 0 {
        1
    } else {
        0
    };
    let da: i64 = if a.num_lose > 0 {
        a.num_lose as i64
    } else if a.num_win > 0 {
        0
    } else {
        1
    };
    let nb: i64 = if b.num_lose > 0 {
        b.num_win as i64
    } else if b.num_win > 0 {
        1
    } else {
        0
    };
    let db: i64 = if b.num_lose > 0 {
        b.num_lose as i64
    } else if b.num_win > 0 {
        0
    } else {
        1
    };
    assert(0 <= na * db <= 0x7fff_ffff * 0x7fff_ffff && 0 <= nb * da <= 0x7fff_ffff * 0x7fff_ffff)
        by (nonlinear_arith)
        requires
            0 <= na <= 0x7fff_ffff,
            0 <= da <= 0x7fff_ffff,
            0 <= nb <= 0x7fff_ffff,
            0 <= db <= 0x7fff_ffff,
    ;
    na * db > nb * da
}

/// The move with the best ratio of games won to games lost. Of several
/// with the same ratio, the one with the lowest index is taken; so it is
/// among moves that have won and never lost.
pub fn best_move(stats: &Vec<Score>) -> (best: usize)
    requires
        stats.len() > 0,
        forall|i: int|
            0 <= i < stats.len() ==> (#[trigger] stats[i]).num_win >= 0 && stats[i].num_lose >= 0,
    ensures
        is_best(stats@, best as int),
{
    let mut best: usize = 0;
    for i in 0..stats.len()
        invariant
            stats.len() > 0,
            forall|i: int|
                0 <= i < stats.len() ==> (#[trigger] stats[i]).num_win >= 0 && stats[i].num_lose
                    >= 0,
            0 <= best < stats.len(),
            best <= i,
            forall|j: int| 0 <= j < i ==> !ratio_above(#[trigger] stats[j], stats[best as int]),
            forall|j: int| 0 <= j < best ==> ratio_above(stats[best as int], #[trigger] stats[j]),
    {
        if has_ratio_above(&stats[i], &stats[best]) {
            proof {
                assert forall|j: int| 0 <= j < i implies ratio_above(
                    stats[i as int],
                    #[trigger] stats[j],
                ) by {
                    lemma_ratio_order(stats[i as int], stats[best as int], stats[j]);
                }
            }
            best = i;
        }
    }
    best
}

/// Adding a round to a game leaves its earlier rounds as they were.
pub proof fn lemma_round_added(start: GameState, rounds: Seq<Round>, round: Round, i: int)
    requires
        0 <= i <= rounds.len(),
    ensures
        after_rounds(start, rounds.push(round).take(i)) == after_rounds(start, rounds.take(i)),
        i < rounds.len() ==> outcome_of(start, rounds.push(round), i) == outcome_of(
            start,
            rounds,
            i,
        ),
        rounds.push(round).take(rounds.len() as int) == rounds,
        rounds.push(round).drop_last() == rounds,
{
    assert(rounds.push(round).take(i) =~= rounds.take(i));
}

/// Plays `game` on with random moves for both players, and a random piece
/// added after every round, until a player has lost. Returns the first
/// move of the first player and whether that player has won; or `None`
/// where the game was given up because it had not ended after `MAX_ROUNDS`
/// rounds, or because a board had no room left for the score of a cascade.
pub fn playout(game: &mut Game, rng: &mut StdRng) -> (end: Option<(u8, bool)>)
    requires
        old(game).wf(),
        old(game)@.queue.len() > 0,
    ensures
        final(game).wf(),
        final(game)@.queue.len() == old(game)@.queue.len(),
        end matches Some(pair) ==> pair.0 < MOVES,
        exists|rounds: Seq<Round>|
            #[trigger] is_playout(old(game)@, rounds, end) && final(game)@ == after_rounds(
                old(game)@,
                rounds,
            ),
{
    let ghost start = game@;
    let ghost mut trace: Seq<Round> = Seq::empty();
    let mut rounds: u32 = 0;
    let mut first_action: u8 = 0;
    while rounds < MAX_ROUNDS && game.has_headroom()
        invariant
            start == old(game)@,
            game.wf(),
            game@.queue.len() == start.queue.len(),
            game@.queue.len() > 0,
            first_action < MOVES,
            rounds <= MAX_ROUNDS,
            trace.len() == rounds,
            game@ == after_rounds(start, trace),
            forall|i: int| 0 <= i < trace.len() ==> (#[trigger] trace[i]).wf(),
            forall|i: int|
                0 <= i < trace.len() ==> (#[trigger] after_rounds(start, trace.take(i))).can_step(),
            forall|i: int|
                0 <= i < trace.len() ==> #[trigger] outcome_of(start, trace, i)
                    == Outcome::InProgress,
            trace.len() > 0 ==> first_action == trace[0].my_action,
        decreases MAX_ROUNDS - rounds,
    {
        let my_action = draw(rng, 0, MOVES);
        let opp_action = draw(rng, 0, MOVES);
        if rounds == 0 {
            first_action = my_action;
        }
        let state = game.play(my_action, opp_action);
        let piece = get_piece(rng);
        game.add_balls(piece);
        let ghost round = Round { my_action, opp_action, piece };
        let ghost longer = trace.push(round);
        proof {
            assert forall|i: int| 0 <= i < longer.len() implies (#[trigger] longer[i]).wf() by {}
            assert forall|i: int| 0 <= i < longer.len() implies (#[trigger] after_rounds(
                start,
                longer.take(i),
            )).can_step() by {
                lemma_round_added(start, trace, round, i);
            }
            assert forall|i: int| 0 <= i < trace.len() implies #[trigger] outcome_of(
                start,
                longer,
                i,
            ) == Outcome::InProgress by {
                lemma_round_added(start, trace, round, i);
            }
            lemma_round_added(start, trace, round, trace.len() as int);
        }
        match state {
            Outcome::InProgress => {},
            Outcome::SelfWins => {
                proof {
                    assert(is_playout(start, longer, Some((first_action, true))));
                }
                return Some((first_action, true));
            },
            Outcome::SelfLoses => {
                proof {
                    assert(is_playout(start, longer, Some((first_action, false))));
                }
                return Some((first_action, false));
            },
        }
        rounds += 1;
        proof {
            trace = longer;
        }
    }
    proof {
        assert(is_playout(start, trace, None));
    }
    None
}

/// Replacing one record changes the number of games that the records hold
/// by what that record lost and gained.
pub proof fn lemma_games_in_update(stats: Seq<Score>, i: int, record: Score)
    requires
        0 <= i < stats.len(),
    ensures
        games_in(stats.update(i, record)) == games_in(stats) - stats[i].num_win
            - stats[i].num_lose + record.num_win + record.num_lose,
    decreases stats.len(),
{
    let after = stats.update(i, record);
    if i == stats.len() - 1 {
        assert(after.drop_last() =~= stats.drop_last());
    } else {
        lemma_games_in_update(stats.drop_last(), i, record);
        assert(after.drop_last() =~= stats.drop_last().update(i, record));
    }
}

/// Records that are all zero hold no game.
pub proof fn lemma_games_in_fresh(n: int)
    requires
        0 <= n <= MOVES,
    ensures
        games_in(fresh_stats().take(n)) == 0,
    decreases n,
{
    if n > 0 {
        lemma_games_in_fresh(n - 1);
        assert(fresh_stats().take(n).drop_last() =~= fresh_stats().take(n - 1));
    }
}

/// Every game is accounted for: the records hold one game, won or lost,
/// for each game that is added to a record, and no other. So where no game
/// was given up and none was refused by its record, the games won and lost
/// over all moves add up to the number of games played.
pub proof fn lemma_games_counted(trials: Seq<Option<Ended>>)
    requires
        forall|i: int|
            0 <= i < trials.len() ==> (#[trigger] trials[i] matches Some(game) ==> game.first
                < MOVES),
    ensures
        tallied(trials).len() == MOVES,
        games_in(tallied(trials)) == counted(trials),
        counted(trials) <= trials.len(),
        (forall|i: int| 0 <= i < trials.len() ==> is_counted(trials, i)) ==> counted(trials)
            == trials.len(),
    decreases trials.len(),
{
    if trials.len() == 0 {
        lemma_games_in_fresh(MOVES as int);
        assert(fresh_stats().take(MOVES as int) =~= fresh_stats());
    } else {
        let rest = trials.drop_last();
        assert forall|i: int| 0 <= i < rest.len() implies (#[trigger] rest[i] matches Some(game)
            ==> game.first < MOVES) by {
            assert(rest[i] == trials[i]);
        }
        lemma_games_counted(rest);
        assert(trials.take(trials.len() - 1) =~= rest);
        if is_counted(trials, trials.len() - 1) {
            let game = trials[trials.len() - 1]->0;
            let stats = tallied(rest);
            let record = stats[game.first as int];
            lemma_games_in_update(
                stats,
                game.first as int,
                record.credited(game.won, game.my_score, game.opp_score),
            );
        }
        if forall|i: int| 0 <= i < trials.len() ==> is_counted(trials, i) {
            assert forall|i: int| 0 <= i < rest.len() implies is_counted(rest, i) by {
                assert(is_counted(trials, i));
                assert(trials.take(i) =~= rest.take(i));
            }
        }
    }
}

/// Plays `trials` games from `game` with random moves drawn from `rng`, and
/// returns the records, one for each first move. Every game is accounted
/// for: it ended and was added to the record of its first move, or ended
/// and was refused by that record because a number would have left its
/// range, or was given up.
pub fn play_trials(game: &Game, rng: &mut StdRng, trials: u32) -> (stats: Vec<Score>)
    requires
        game.wf(),
        game@.queue.len() > 0,
    ensures
        stats.len() == MOVES,
        forall|k: int|
            0 <= k < stats.len() ==> (#[trigger] stats[k]).num_win >= 0 && stats[k].num_lose >= 0,
        exists|log: Seq<Option<Ended>>|
            log.len() == trials && #[trigger] is_trial_log(game@, log) && stats@ == tallied(log),
{
    let ghost start = game@;
    let ghost mut log: Seq<Option<Ended>> = Seq::empty();
    let mut stats: Vec<Score> = Vec::new();
    for i in 0..MOVES
        invariant
            stats.len() == i,
            stats@ == fresh_stats().take(i as int),
    {
        stats.push(Score::new());
    }
    proof {
        assert(fresh_stats().take(MOVES as int) =~= fresh_stats());
    }
    for trial in 0..trials
        invariant
            start == game@,
            game.wf(),
            game@.queue.len() > 0,
            stats.len() == MOVES,
            stats@ == tallied(log),
            log.len() == trial,
            forall|k: int|
                0 <= k < stats.len() ==> (#[trigger] stats[k]).num_win >= 0 && stats[k].num_lose
                    >= 0,
            is_trial_log(start, log),
    {
        let ghost before = log;
        let mut copy = game.snapshot();
        let end = playout(&mut copy, rng);
        let ghost rounds = choose|rounds: Seq<Round>|
            #[trigger] is_playout(start, rounds, end) && copy@ == after_rounds(start, rounds);
        match end {
            Some((first_action, won)) => {
                let my_score = copy.get_me().get_score();
                let opp_score = copy.get_opp().get_score();
                let mut bucket = stats[first_action as usize];
                bucket.try_credit(won, my_score, opp_score);
                stats.set(first_action as usize, bucket);
                proof {
                    let ended = Ended { first: first_action, won, my_score, opp_score };
                    assert(is_playout(start, rounds, Some((ended.first, ended.won))));
                    assert(is_ended(start, ended));
                    log = before.push(Some(ended));
                }
            },
            None => {
                proof {
                    assert(is_playout(start, rounds, None));
                    assert(is_given_up(start));
                    log = before.push(None);
                }
            },
        }
        proof {
            assert(log.drop_last() =~= before);
            assert(stats@ =~= tallied(log));
            assert forall|i: int| 0 <= i < log.len() implies match #[trigger] log[i] {
                Some(game) => game.first < MOVES && is_ended(start, game),
                None => is_given_up(start),
            } by {
                if i < before.len() {
                    assert(log[i] == before[i]);
                }
            }
        }
    }
    stats
}

/// Plays `trials` games from `game` with random moves drawn from `rng`, and
/// returns the column and the orientation of the first move with the best
/// ratio of games won to games lost. A game that was given up counts for
/// no move, and so does one whose points would take a record out of its
/// range. Without a game that counts, the choice is the first move.
pub fn solve_with(game: &Game, rng: &mut StdRng, trials: u32) -> (choice: (u8, u8))
    requires
        game.wf(),
        game@.queue.len() > 0,
    ensures
        is_choice(choice),
        exists|log: Seq<Option<Ended>>|
            log.len() == trials && #[trigger] is_solution(game@, log, choice),
{
    let stats = play_trials(game, rng, trials);
    let best = best_move(&stats);
    let choice = decode(best as u8);
    proof {
        let log = choose|log: Seq<Option<Ended>>|
            log.len() == trials && #[trigger] is_trial_log(game@, log) && stats@ == tallied(log);
        assert(is_best(tallied(log), (best as u8) as int));
        assert(is_solution(game@, log, choice));
    }
    choice
}

/// The column and the orientation of the move to make in `game`, found by
/// `TRIALS` random games drawn from a generator with the seed `SEED`.
pub fn solve(game: &Game) -> (choice: (u8, u8))
    requires
        game.wf(),
        game@.queue.len() > 0,
    ensures
        is_choice(choice),
        exists|log: Seq<Option<Ended>>|
            log.len() == TRIALS && #[trigger] is_solution(game@, log, choice),
{
    let mut rng = seeded(SEED);
    solve_with(game, &mut rng, TRIALS)
}

} // verus!

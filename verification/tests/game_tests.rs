use smash_the_code::game::{Game, Outcome};
use smash_the_code::rng::get_piece;
use smash_the_code::solver::{
    best_move, decode, play_trials, playout, solve, solve_with, Score, MAX_ROUNDS, SEED, TRIALS,
};
use std::collections::VecDeque;

fn queue_of(pieces: &[u8]) -> VecDeque<u8> {
    let mut queue = VecDeque::new();
    for piece in pieces {
        queue.push_back(*piece);
    }
    queue
}

fn seeded(seed: u64) -> rand::rngs::StdRng {
    rand::SeedableRng::seed_from_u64(seed)
}

#[test]
fn a_round_goes_on_when_both_boards_have_room() {
    let mut game = Game::new(queue_of(&[0x12, 0x34]));
    assert!(game.can_step());
    assert_eq!(game.play(0, 21), Outcome::InProgress);
    assert_eq!(game.queue_len(), 1);
    assert_eq!(game.upcoming(), vec![0x34]);
    assert_eq!(game.get_me().get_board()[12][0], 1);
    assert_eq!(game.get_me().get_board()[11][0], 2);
    assert_eq!(game.get_opp().get_board()[12][4], 2);
    assert_eq!(game.get_opp().get_board()[12][5], 1);
}

#[test]
fn add_balls_appends() {
    let mut game = Game::new(queue_of(&[0x12]));
    game.add_balls(0x55);
    game.add_balls(0x31);
    assert_eq!(game.upcoming(), vec![0x12, 0x55, 0x31]);
    assert_eq!(game.queue_len(), 3);
}

#[test]
fn an_empty_queue_cannot_step() {
    let game = Game::new(VecDeque::new());
    assert!(!game.can_step());
}

/// Moves that stack the piece 0x12 in columns 1 to 5 as a checkerboard, so
/// that no group comes about.
const SPREAD: [u8; 7] = [1, 6 + 2, 3, 6 + 4, 5, 1, 6 + 2];

#[test]
fn the_board_that_fails_alone_loses() {
    // Stacked in one column the piece 0x12 never makes a group, so column 0
    // of the first board is full after six rounds.
    let mut game = Game::new(queue_of(&[0x12; 7]));
    for round in 0..6 {
        assert_eq!(game.play(0, SPREAD[round]), Outcome::InProgress);
    }
    assert_eq!(game.get_me().get_bottom()[0], 0);
    assert_eq!(game.play(0, SPREAD[6]), Outcome::SelfLoses);
    assert_eq!(game.get_me().get_score(), 0);
    assert_eq!(game.get_opp().get_bottom(), [12, 8, 8, 10, 10, 10]);
    assert_eq!(game.queue_len(), 0);
}

#[test]
fn the_board_that_survives_alone_wins() {
    let mut game = Game::new(queue_of(&[0x12; 7]));
    for round in 0..6 {
        assert_eq!(game.play(SPREAD[round], 0), Outcome::InProgress);
    }
    assert_eq!(game.play(SPREAD[6], 0), Outcome::SelfWins);
    assert_eq!(game.get_opp().get_score(), 0);
    assert_eq!(game.get_me().get_bottom(), [12, 8, 8, 10, 10, 10]);
}

#[test]
fn equal_points_count_as_lost_when_both_boards_fail() {
    let mut game = Game::new(queue_of(&[0x12; 7]));
    for _ in 0..6 {
        assert_eq!(game.play(0, 0), Outcome::InProgress);
    }
    assert_eq!(game.get_me().get_score(), game.get_opp().get_score());
    assert_eq!(game.play(0, 0), Outcome::SelfLoses);
}

#[test]
fn more_points_win_when_both_boards_fail() {
    // The first board makes a group of five (50 points) in its third
    // round; then both boards fill one column with the piece 0x23.
    let pieces = [0x11, 0x13, 0x11, 0x23, 0x23, 0x23, 0x23, 0x23, 0x23, 0x23];
    let mut game = Game::new(queue_of(&pieces));
    assert_eq!(game.play(0, 12), Outcome::InProgress);
    assert_eq!(game.play(12, 14), Outcome::InProgress);
    assert_eq!(game.play(0, 5), Outcome::InProgress);
    assert_eq!(game.get_me().get_score(), 50);
    assert_eq!(game.get_me().get_nuisance(), 50);
    assert_eq!(game.get_opp().get_score(), 0);
    for _ in 0..6 {
        assert_eq!(game.play(5, 4), Outcome::InProgress);
    }
    assert_eq!(game.play(5, 4), Outcome::SelfWins);
    assert_eq!(game.get_me().get_score(), 50);
    assert_eq!(game.get_opp().get_score(), 0);
}

#[test]
fn fewer_points_lose_when_both_boards_fail() {
    let pieces = [0x11, 0x13, 0x11, 0x23, 0x23, 0x23, 0x23, 0x23, 0x23, 0x23];
    let mut game = Game::new(queue_of(&pieces));
    assert_eq!(game.play(12, 0), Outcome::InProgress);
    assert_eq!(game.play(14, 12), Outcome::InProgress);
    assert_eq!(game.play(5, 0), Outcome::InProgress);
    for _ in 0..6 {
        assert_eq!(game.play(4, 5), Outcome::InProgress);
    }
    assert_eq!(game.play(4, 5), Outcome::SelfLoses);
    assert_eq!(game.get_me().get_score(), 0);
    assert_eq!(game.get_opp().get_score(), 50);
}

#[test]
fn points_turn_into_garbage_for_the_other_board() {
    // The last move of the first board closes a group of five of color 1
    // and a group of four of color 2 at once: 270 points, three rows of
    // garbage for the opponent, 60 points left pending.
    let pieces = [0x11, 0x11, 0x22, 0x23, 0x12];
    let mut game = Game::new(queue_of(&pieces));
    assert_eq!(game.play(0, 12), Outcome::InProgress);
    assert_eq!(game.play(2, 15), Outcome::InProgress);
    assert_eq!(game.play(3, 12), Outcome::InProgress);
    assert_eq!(game.play(15, 15), Outcome::InProgress);
    assert_eq!(game.get_opp().get_bottom(), [10, 10, 12, 10, 10, 12]);
    assert_eq!(game.play(13, 16), Outcome::InProgress);
    assert_eq!(game.get_me().get_score(), 270);
    assert_eq!(game.get_me().get_nuisance(), 60);
    assert_eq!(game.get_me().get_bottom(), [12, 12, 12, 12, 11, 12]);
    assert_eq!(game.get_me().get_board()[12][4], 3);
    assert_eq!(game.get_opp().get_score(), 0);
    assert_eq!(game.get_opp().get_nuisance(), 0);
    assert_eq!(game.get_opp().get_bottom(), [7, 7, 9, 7, 6, 8]);
    let opp = game.get_opp().get_board();
    assert_eq!(opp[12][2], 0);
    assert_eq!(opp[10][2], 0);
    assert_eq!(opp[9][2], 7);
    assert_eq!(opp[9][4], 0);
    assert_eq!(opp[10][4], 1);
}

#[test]
fn garbage_that_finds_no_room_ends_the_game() {
    // The first board closes two groups of four at once (160 points, two
    // rows of garbage) while column 0 of the opponent is full.
    let mut game = Game::new(queue_of(&[0x12; 7]));
    for _ in 0..3 {
        assert_eq!(game.play(12, 0), Outcome::InProgress);
    }
    for _ in 0..3 {
        assert_eq!(game.play(15, 0), Outcome::InProgress);
    }
    assert_eq!(game.get_opp().get_bottom()[0], 0);
    assert_eq!(game.play(12, 1), Outcome::SelfWins);
    assert_eq!(game.get_me().get_score(), 160);
    assert_eq!(game.get_me().get_nuisance(), 20);
    assert_eq!(game.get_me().get_bottom(), [12, 12, 12, 9, 9, 12]);
    assert_eq!(game.get_opp().get_score(), 0);
    assert_eq!(game.get_opp().get_bottom(), [0, 10, 12, 12, 12, 12]);
}

#[test]
fn a_round_that_the_placement_decides_clears_nothing() {
    // The last move of the first board lays a fourth ball on two stacks of
    // three, worth 160 points if it were resolved; the opponent has no room
    // for its piece. The first board wins and stays as placed.
    let mut game = Game::new(queue_of(&[0x12; 7]));
    for _ in 0..3 {
        assert_eq!(game.play(12, 0), Outcome::InProgress);
    }
    for _ in 0..3 {
        assert_eq!(game.play(15, 0), Outcome::InProgress);
    }
    assert_eq!(game.get_opp().get_bottom()[0], 0);
    let opp_before = game.get_opp().get_board();
    assert_eq!(game.play(12, 0), Outcome::SelfWins);
    assert_eq!(game.get_me().get_score(), 0);
    assert_eq!(game.get_me().get_nuisance(), 0);
    assert_eq!(game.get_me().get_bottom(), [8, 8, 12, 9, 9, 12]);
    let me = game.get_me().get_board();
    for row in 9..13 {
        assert_eq!(me[row][0], 1);
        assert_eq!(me[row][1], 2);
    }
    assert_eq!(game.get_opp().get_score(), 0);
    assert_eq!(game.get_opp().get_board(), opp_before);
    assert_eq!(game.queue_len(), 0);
}

#[test]
fn the_survivor_of_a_placement_keeps_its_points_and_earns_none() {
    // The first board earns 50 points in its third round. In the last
    // round its move closes two groups of four while the opponent, whose
    // column 0 is full, fails: the 50 points stay, and nothing is added.
    let pieces = [0x11, 0x13, 0x11, 0x12, 0x12, 0x12, 0x12, 0x12, 0x12, 0x12];
    let mut game = Game::new(queue_of(&pieces));
    assert_eq!(game.play(0, 5), Outcome::InProgress);
    assert_eq!(game.play(12, 12 + 3), Outcome::InProgress);
    assert_eq!(game.play(0, 1), Outcome::InProgress);
    assert_eq!(game.get_me().get_score(), 50);
    assert_eq!(game.get_opp().get_score(), 0);
    // The first board: three times 1 on column 2 and 2 on column 3, then
    // the same on columns 4 and 5. The opponent fills column 0.
    for _ in 0..3 {
        assert_eq!(game.play(12 + 2, 0), Outcome::InProgress);
    }
    for _ in 0..3 {
        assert_eq!(game.play(12 + 4, 0), Outcome::InProgress);
    }
    assert_eq!(game.get_opp().get_bottom()[0], 0);
    assert_eq!(game.play(12 + 4, 0), Outcome::SelfWins);
    assert_eq!(game.get_me().get_score(), 50);
    assert_eq!(game.get_me().get_nuisance(), 50);
    assert_eq!(game.get_me().get_bottom()[4], 8);
    assert_eq!(game.get_me().get_bottom()[5], 8);
    assert_eq!(game.get_opp().get_score(), 0);
}

#[test]
fn garbage_that_finds_no_room_on_the_first_board_loses() {
    let mut game = Game::new(queue_of(&[0x12; 7]));
    for _ in 0..3 {
        assert_eq!(game.play(0, 12), Outcome::InProgress);
    }
    for _ in 0..3 {
        assert_eq!(game.play(0, 15), Outcome::InProgress);
    }
    assert_eq!(game.play(1, 12), Outcome::SelfLoses);
    assert_eq!(game.get_opp().get_score(), 160);
    assert_eq!(game.get_opp().get_nuisance(), 20);
    assert_eq!(game.get_me().get_score(), 0);
    assert_eq!(game.get_me().get_bottom(), [0, 10, 12, 12, 12, 12]);
}

#[test]
fn snapshot_is_independent() {
    let mut game = Game::new(queue_of(&[0x12, 0x34]));
    let copy = game.snapshot();
    assert_eq!(game.play(0, 0), Outcome::InProgress);
    assert_eq!(copy.queue_len(), 2);
    assert_eq!(copy.get_me().get_board()[12][0], 7);
    assert_eq!(game.get_me().get_board()[12][0], 1);
}

#[test]
fn decode_gives_column_and_orientation() {
    assert_eq!(decode(0), (0, 0));
    assert_eq!(decode(5), (5, 0));
    assert_eq!(decode(6), (0, 2));
    assert_eq!(decode(11), (5, 2));
    assert_eq!(decode(12), (0, 1));
    assert_eq!(decode(16), (4, 1));
    assert_eq!(decode(17), (0, 3));
    assert_eq!(decode(21), (4, 3));
}

fn bucket(num_win: i32, num_lose: i32) -> Score {
    Score { max_diff: 0, sum_score: 0, num_win, num_lose }
}

#[test]
fn new_score_is_all_zero() {
    let score = Score::new();
    assert_eq!(score.max_diff, 0);
    assert_eq!(score.sum_score, 0);
    assert_eq!(score.num_win, 0);
    assert_eq!(score.num_lose, 0);
}

#[test]
fn best_move_takes_the_highest_ratio() {
    let stats = vec![bucket(1, 2), bucket(3, 4), bucket(2, 3), bucket(0, 0)];
    assert_eq!(best_move(&stats), 1);
}

#[test]
fn best_move_takes_the_first_of_equal_ratios() {
    let stats = vec![bucket(0, 5), bucket(2, 4), bucket(1, 2), bucket(3, 6)];
    assert_eq!(best_move(&stats), 1);
}

#[test]
fn best_move_prefers_a_move_that_never_lost() {
    let stats = vec![bucket(100, 1), bucket(0, 0), bucket(1, 0), bucket(7, 0)];
    assert_eq!(best_move(&stats), 2);
}

#[test]
fn best_move_is_the_first_move_when_nothing_was_won() {
    let stats = vec![bucket(0, 0), bucket(0, 3), bucket(0, 0)];
    assert_eq!(best_move(&stats), 0);
}

#[test]
fn credit_adds_a_game() {
    let mut score = Score::new();
    score.credit(true, 500, 120);
    assert_eq!(score.num_win, 1);
    assert_eq!(score.num_lose, 0);
    assert_eq!(score.sum_score, 500);
    assert_eq!(score.max_diff, 380);
    score.credit(false, 0, 900);
    assert_eq!(score.num_win, 1);
    assert_eq!(score.num_lose, 1);
    assert_eq!(score.sum_score, 500);
    assert_eq!(score.max_diff, 380);
}

#[test]
fn try_credit_refuses_what_does_not_fit() {
    let mut score = Score { max_diff: 0, sum_score: i32::MAX - 10, num_win: 4, num_lose: 2 };
    assert!(!score.try_credit(true, 11, 0));
    assert_eq!(score.sum_score, i32::MAX - 10);
    assert_eq!(score.num_win, 4);
    assert!(score.try_credit(true, 10, 0));
    assert_eq!(score.sum_score, i32::MAX);
    assert_eq!(score.num_win, 5);
    assert!(!score.try_credit(false, 0, u32::MAX));
    assert_eq!(score.num_lose, 2);
}

#[test]
fn pieces_hold_two_colors_and_vary() {
    let mut rng = seeded(7);
    let first = get_piece(&mut rng);
    let mut varied = false;
    for _ in 0..200 {
        let piece = get_piece(&mut rng);
        let c1 = piece >> 4;
        let c2 = piece & 0xF;
        assert!(1 <= c1 && c1 <= 5);
        assert!(1 <= c2 && c2 <= 5);
        if piece != first {
            varied = true;
        }
    }
    assert!(varied);
}

fn seed_queue(rng: &mut rand::rngs::StdRng) -> VecDeque<u8> {
    let mut queue = VecDeque::new();
    for _ in 0..8 {
        queue.push_back(get_piece(rng));
    }
    queue
}

#[test]
fn a_playout_ends_and_names_its_first_move() {
    let mut rng = seeded(SEED);
    let game = Game::new(seed_queue(&mut rng));
    let mut first_moves = Vec::new();
    for _ in 0..50 {
        let mut copy = game.snapshot();
        let (first, won) = playout(&mut copy, &mut rng).expect("a random game ends");
        assert!(first < 22);
        let me = copy.get_me().get_score();
        let opp = copy.get_opp().get_score();
        if won {
            assert!(opp == 0 || me > opp);
        } else {
            assert!(me == 0 || me <= opp);
        }
        first_moves.push(first);
        // Eight pieces at the start, one taken and one added each round.
        assert_eq!(copy.queue_len(), 8);
    }
    first_moves.sort();
    first_moves.dedup();
    assert!(first_moves.len() > 1);
    assert!(MAX_ROUNDS >= 1000);
}

#[test]
fn solve_gives_a_move_of_the_board() {
    let mut rng = seeded(SEED);
    let game = Game::new(seed_queue(&mut rng));
    let (column, orientation) = solve(&game);
    assert!(orientation < 4);
    assert!(column < 6);
    if orientation == 1 || orientation == 3 {
        assert!(column < 5);
    }
}

#[test]
fn solve_is_reproducible() {
    let mut rng = seeded(SEED);
    let game = Game::new(seed_queue(&mut rng));
    let first = solve(&game);
    let second = solve(&game);
    assert_eq!(first, second);
    let mut a = seeded(SEED);
    assert_eq!(solve_with(&game, &mut a, TRIALS), first);
}

#[test]
fn solve_with_is_reproducible_for_each_seed() {
    let mut rng = seeded(1);
    let game = Game::new(seed_queue(&mut rng));
    for seed in [0u64, 1, 222, 12345] {
        let mut a = seeded(seed);
        let mut b = seeded(seed);
        assert_eq!(solve_with(&game, &mut a, 200), solve_with(&game, &mut b, 200));
    }
}

#[test]
fn solve_with_no_trial_takes_the_first_move() {
    let mut rng = seeded(3);
    let game = Game::new(seed_queue(&mut rng));
    assert_eq!(solve_with(&game, &mut rng, 0), (0, 0));
}

#[test]
fn every_trial_is_added_to_one_record() {
    let mut rng = seeded(SEED);
    let game = Game::new(seed_queue(&mut rng));
    let stats = play_trials(&game, &mut rng, 500);
    assert_eq!(stats.len(), 22);
    let mut games = 0;
    for record in &stats {
        assert!(record.num_win >= 0 && record.num_lose >= 0);
        assert!(record.sum_score >= 0);
        assert!(record.max_diff >= 0);
        games += record.num_win + record.num_lose;
    }
    assert_eq!(games, 500);
    let mut again = seeded(SEED);
    let same = Game::new(seed_queue(&mut again));
    let repeat = play_trials(&same, &mut again, 500);
    for m in 0..22 {
        assert_eq!(stats[m].num_win, repeat[m].num_win);
        assert_eq!(stats[m].num_lose, repeat[m].num_lose);
        assert_eq!(stats[m].sum_score, repeat[m].sum_score);
    }
    assert_eq!(best_move(&stats), best_move(&repeat));
}

#[test]
fn no_trial_leaves_the_records_empty() {
    let mut rng = seeded(5);
    let game = Game::new(seed_queue(&mut rng));
    let stats = play_trials(&game, &mut rng, 0);
    assert_eq!(stats.len(), 22);
    for record in &stats {
        assert_eq!(record.num_win + record.num_lose, 0);
    }
}

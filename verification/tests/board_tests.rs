use smash_the_code::errors::GameError;
use smash_the_code::player::Player;

fn empty_board() -> [[u8; 6]; 13] {
    [[7; 6]; 13]
}

#[test]
fn test_gravity() {
    let board: [[u8; 6]; 13] = [
        [7, 7, 7, 7, 7, 7],
        [7, 7, 7, 7, 7, 2],
        [7, 7, 7, 7, 7, 2],
        [7, 7, 7, 7, 7, 2],
        [7, 7, 7, 7, 7, 2],
        [7, 7, 7, 7, 7, 2],
        [7, 7, 7, 7, 7, 3],
        [7, 7, 7, 7, 7, 2],
        [7, 7, 4, 3, 7, 2],
        [7, 7, 4, 3, 7, 2],
        [7, 7, 3, 3, 7, 2],
        [7, 7, 4, 2, 7, 2],
        [7, 7, 4, 1, 7, 2],
    ];
    let bottom: [usize; 6] = [12, 12, 7, 7, 12, 12];
    let mut player = Player::from_parts(board, bottom).unwrap();

    let score = player.process_board();

    println!("{:?}", player.get_board());
    println!("{:?}", player.get_bottom());

    assert!(player.get_bottom() == [12, 12, 12, 10, 12, 11]);
    assert!(player.get_board()[12][2] == 7);
    assert!(score == 1070);
}

#[test]
fn test_heads() {
    let board: [[u8; 6]; 13] = [
        [7, 7, 7, 7, 7, 7],
        [7, 7, 7, 7, 7, 7],
        [7, 7, 7, 7, 7, 7],
        [7, 7, 7, 7, 7, 7],
        [7, 7, 7, 7, 7, 7],
        [7, 7, 7, 7, 7, 7],
        [7, 7, 7, 7, 7, 7],
        [7, 7, 7, 7, 7, 7],
        [7, 1, 4, 3, 7, 7],
        [7, 1, 4, 3, 7, 7],
        [7, 1, 3, 3, 7, 7],
        [7, 1, 4, 2, 7, 7],
        [7, 1, 4, 1, 7, 7],
    ];
    let bottom: [usize; 6] = [12, 7, 7, 7, 12, 12];
    let mut player = Player::from_parts(board, bottom).unwrap();

    let score = player.process_board();

    println!("{:?}", player.get_board());

    assert!(player.get_board()[12][2] == 7);
    println!("{:?}", score);
    assert!(score == 270 + 320);
}

#[test]
fn test_head() {
    let board: [[u8; 6]; 13] = [
        [7, 7, 7, 7, 7, 7],
        [7, 7, 7, 7, 7, 7],
        [7, 7, 7, 7, 7, 7],
        [7, 7, 7, 7, 7, 7],
        [7, 7, 7, 7, 7, 7],
        [7, 7, 7, 7, 7, 7],
        [7, 7, 7, 7, 7, 7],
        [7, 7, 7, 7, 7, 7],
        [7, 1, 4, 3, 7, 7],
        [7, 1, 4, 3, 7, 7],
        [7, 1, 3, 3, 7, 7],
        [7, 1, 4, 2, 7, 7],
        [7, 1, 4, 1, 7, 7],
    ];
    let bottom: [usize; 6] = [11, 6, 6, 6, 11, 11];
    let mut player = Player::from_parts(board, bottom).unwrap();

    assert!(player.add_heads(3).is_ok());

    println!("{:?}", player.get_board());

    let board = player.get_board();
    assert!(board[11][0] == 0);
    assert!(board[9][0] == 0);
    assert!(board[6][3] == 0);
    assert!(board[4][3] == 0);
    assert!(board[11][5] == 0);
    assert!(board[9][5] == 0);
}

#[test]
fn new_board_is_empty() {
    let player = Player::new();
    assert_eq!(player.get_board(), empty_board());
    assert_eq!(player.get_bottom(), [12; 6]);
    assert_eq!(player.get_score(), 0);
    assert_eq!(player.get_nuisance(), 0);
    assert!(player.has_headroom());
}

#[test]
fn from_parts_refuses_a_fill_index_below_the_floor() {
    assert!(Player::from_parts(empty_board(), [12, 12, 13, 12, 12, 12]).is_none());
    assert!(Player::from_parts(empty_board(), [0, 1, 2, 3, 4, 12]).is_some());
}

#[test]
fn upright_move_stacks_first_color_below_second() {
    let mut player = Player::new();
    assert_eq!(player.play(0x12, 3), Ok(()));
    let board = player.get_board();
    assert_eq!(board[12][3], 1);
    assert_eq!(board[11][3], 2);
    assert_eq!(player.get_bottom(), [12, 12, 12, 10, 12, 12]);
}

#[test]
fn upright_swapped_move_stacks_second_color_below_first() {
    let mut player = Player::new();
    assert_eq!(player.play(0x12, 6 + 4), Ok(()));
    let board = player.get_board();
    assert_eq!(board[12][4], 2);
    assert_eq!(board[11][4], 1);
    assert_eq!(player.get_bottom(), [12, 12, 12, 12, 10, 12]);
}

#[test]
fn flat_move_puts_first_color_left() {
    let mut player = Player::new();
    assert_eq!(player.play(0x12, 12 + 4), Ok(()));
    let board = player.get_board();
    assert_eq!(board[12][4], 1);
    assert_eq!(board[12][5], 2);
    assert_eq!(player.get_bottom(), [12, 12, 12, 12, 11, 11]);
}

#[test]
fn flat_swapped_move_puts_second_color_left() {
    let mut player = Player::new();
    assert_eq!(player.play(0x12, 17), Ok(()));
    let board = player.get_board();
    assert_eq!(board[12][0], 2);
    assert_eq!(board[12][1], 1);
    assert_eq!(player.get_bottom(), [11, 11, 12, 12, 12, 12]);
}

#[test]
fn fill_indices_stay_in_range_over_many_moves() {
    let mut player = Player::new();
    let pieces: [u8; 5] = [0x12, 0x34, 0x51, 0x23, 0x45];
    let mut failed = false;
    for i in 0..200usize {
        let position = ((i * 7) % 22) as u8;
        if player.play(pieces[i % 5], position).is_err() {
            failed = true;
        }
        for fill in player.get_bottom() {
            assert!(fill <= 12);
        }
        if failed {
            break;
        }
    }
}

#[test]
fn a_full_column_fails_and_stays_as_it_was() {
    let mut player = Player::new();
    for _ in 0..6 {
        assert_eq!(player.play(0x12, 0), Ok(()));
    }
    assert_eq!(player.get_bottom()[0], 0);
    let before = player.get_board();
    assert_eq!(player.play(0x12, 0), Err(GameError::BoardIsFull));
    assert_eq!(player.get_board(), before);
    assert_eq!(player.get_bottom()[0], 0);
    assert_eq!(player.get_board()[0], [7; 6]);
}

#[test]
fn a_move_that_fails_at_its_second_ball_keeps_the_first() {
    let mut board = empty_board();
    for row in 2..13 {
        board[row][0] = if row % 2 == 0 { 1 } else { 2 };
    }
    let mut player = Player::from_parts(board, [1, 12, 12, 12, 12, 12]).unwrap();
    assert_eq!(player.play(0x34, 0), Err(GameError::BoardIsFull));
    assert_eq!(player.get_board()[1][0], 3);
    assert_eq!(player.get_bottom()[0], 0);
    assert_eq!(player.get_score(), 0);
}

#[test]
fn a_flat_move_that_fails_in_its_second_column_keeps_the_first() {
    let mut board = empty_board();
    for row in 1..13 {
        board[row][1] = if row % 2 == 0 { 1 } else { 2 };
    }
    let mut player = Player::from_parts(board, [12, 0, 12, 12, 12, 12]).unwrap();
    assert_eq!(player.play(0x34, 12), Err(GameError::BoardIsFull));
    assert_eq!(player.get_board()[12][0], 3);
    assert_eq!(player.get_bottom(), [11, 0, 12, 12, 12, 12]);
}

#[test]
fn no_group_leaves_the_board_unchanged() {
    let mut board = empty_board();
    board[12][0] = 1;
    board[11][0] = 1;
    board[10][0] = 1;
    board[12][1] = 2;
    board[12][2] = 1;
    let bottom = [9, 11, 11, 12, 12, 12];
    let mut player = Player::from_parts(board, bottom).unwrap();
    assert_eq!(player.process_board(), 0);
    assert_eq!(player.get_board(), board);
    assert_eq!(player.get_bottom(), bottom);
    assert!(player.find_groups().is_empty());
}

#[test]
fn one_group_of_four_scores_nothing() {
    let mut board = empty_board();
    for row in 9..13 {
        board[row][2] = 3;
    }
    let mut player = Player::from_parts(board, [12, 12, 8, 12, 12, 12]).unwrap();
    assert_eq!(player.find_groups().len(), 1);
    assert_eq!(player.process_board(), 10 * 4 * (0 + 0 + 0));
    assert_eq!(player.get_board(), empty_board());
    assert_eq!(player.get_bottom(), [12; 6]);
}

#[test]
fn two_groups_of_four_and_five_score_270() {
    let mut board = empty_board();
    for row in 9..13 {
        board[row][0] = 1;
    }
    for row in 8..13 {
        board[row][3] = 2;
    }
    let mut player = Player::from_parts(board, [8, 12, 12, 7, 12, 12]).unwrap();
    let groups = player.find_groups();
    assert_eq!(groups.len(), 2);
    assert_eq!(groups[0].len(), 5);
    assert_eq!(groups[0][0], (8, 3));
    assert_eq!(groups[1].len(), 4);
    assert_eq!(groups[1][0], (9, 0));
    let mut cells = groups[1].clone();
    cells.sort();
    assert_eq!(cells, vec![(9, 0), (10, 0), (11, 0), (12, 0)]);
    assert_eq!(player.process_board(), 10 * 9 * (0 + 2 + (0 + 1)));
    assert_eq!(player.get_board(), empty_board());
}

#[test]
fn a_group_of_ten_or_more_has_bonus_eight() {
    let mut board = empty_board();
    for row in 7..13 {
        board[row][0] = 4;
        board[row][1] = 4;
    }
    let mut player = Player::from_parts(board, [6, 6, 12, 12, 12, 12]).unwrap();
    assert_eq!(player.process_board(), 10 * 12 * (0 + 0 + 8));
}

#[test]
fn five_colors_in_one_pass_have_bonus_sixteen() {
    let mut board = empty_board();
    for col in 0..5 {
        for row in 9..13 {
            board[row][col] = (col + 1) as u8;
        }
    }
    let mut player = Player::from_parts(board, [8, 8, 8, 8, 8, 12]).unwrap();
    assert_eq!(player.find_groups().len(), 5);
    assert_eq!(player.process_board(), 10 * 20 * (0 + 16 + 0));
    assert_eq!(player.get_board(), empty_board());
}

#[test]
fn three_and_four_colors_have_bonus_four_and_eight() {
    let mut board = empty_board();
    for col in 0..3 {
        for row in 9..13 {
            board[row][col] = (col + 1) as u8;
        }
    }
    let mut player = Player::from_parts(board, [8, 8, 8, 12, 12, 12]).unwrap();
    assert_eq!(player.process_board(), 10 * 12 * (0 + 4 + 0));
    for row in 9..13 {
        board[row][3] = 4;
    }
    let mut player = Player::from_parts(board, [8, 8, 8, 8, 12, 12]).unwrap();
    assert_eq!(player.process_board(), 10 * 16 * (0 + 8 + 0));
}

#[test]
fn the_third_pass_has_chain_power_sixteen() {
    // Column 0 from the floor up: four of color 1, three of color 2, three
    // of color 3. Column 1 from the floor up: one 2, one 3. When the 1s
    // are gone the 2s come to lie beside the 2 of column 1, and when those
    // are gone the 3s come to lie beside the 3.
    let mut board = empty_board();
    for row in 9..13 {
        board[row][0] = 1;
    }
    for row in 6..9 {
        board[row][0] = 2;
    }
    for row in 3..6 {
        board[row][0] = 3;
    }
    board[12][1] = 2;
    board[11][1] = 3;
    let mut player = Player::from_parts(board, [2, 10, 12, 12, 12, 12]).unwrap();
    assert_eq!(player.find_groups().len(), 1);
    let score = player.process_board();
    assert_eq!(score, 10 * 4 * 0 + 10 * 4 * 8 + 10 * 4 * 16);
    assert_eq!(player.get_board(), empty_board());
    assert_eq!(player.get_bottom(), [12; 6]);
}

#[test]
fn garbage_is_never_cleared() {
    let mut player = Player::new();
    assert_eq!(player.add_heads(2), Ok(()));
    assert_eq!(player.process_board(), 0);
    let board = player.get_board();
    for col in 0..6 {
        assert_eq!(board[12][col], 0);
        assert_eq!(board[11][col], 0);
        assert_eq!(board[10][col], 7);
    }
    assert_eq!(player.get_bottom(), [10; 6]);
}

#[test]
fn garbage_next_to_a_group_stays() {
    let mut board = empty_board();
    for row in 9..13 {
        board[row][2] = 3;
    }
    board[12][1] = 0;
    board[12][3] = 0;
    board[8][2] = 0;
    let mut player = Player::from_parts(board, [12, 11, 7, 11, 12, 12]).unwrap();
    assert_eq!(player.process_board(), 0);
    let after = player.get_board();
    assert_eq!(after[12][1], 0);
    assert_eq!(after[12][3], 0);
    assert_eq!(after[12][2], 0);
    assert_eq!(after[11][2], 7);
    assert_eq!(player.get_bottom(), [12, 11, 11, 11, 12, 12]);
}

#[test]
fn add_heads_of_nothing_changes_nothing() {
    let mut player = Player::new();
    assert_eq!(player.play(0x12, 0), Ok(()));
    let board = player.get_board();
    let bottom = player.get_bottom();
    assert_eq!(player.add_heads(0), Ok(()));
    assert_eq!(player.get_board(), board);
    assert_eq!(player.get_bottom(), bottom);
}

fn filled_cells(player: &Player) -> usize {
    let board = player.get_board();
    let mut n = 0;
    for row in 0..13 {
        for col in 0..6 {
            if board[row][col] != 7 {
                n += 1;
            }
        }
    }
    n
}

#[test]
fn add_heads_fills_six_cells_a_row() {
    let mut player = Player::new();
    assert_eq!(player.play(0x12, 14), Ok(()));
    let before = filled_cells(&player);
    assert_eq!(player.add_heads(4), Ok(()));
    assert_eq!(filled_cells(&player), before + 6 * 4);
    assert_eq!(player.get_bottom(), [8, 8, 7, 7, 8, 8]);
}

#[test]
fn add_heads_fails_at_the_first_full_column_and_keeps_what_went_in() {
    let mut board = empty_board();
    for row in 3..13 {
        board[row][2] = if row % 2 == 0 { 1 } else { 2 };
    }
    let mut player = Player::from_parts(board, [12, 12, 2, 12, 12, 12]).unwrap();
    assert_eq!(player.add_heads(5), Err(GameError::BoardIsFull));
    // Two whole rows went in; the third stopped at column 2.
    assert_eq!(player.get_bottom(), [9, 9, 0, 10, 10, 10]);
    let after = player.get_board();
    assert_eq!(after[10][0], 0);
    assert_eq!(after[9][0], 7);
    assert_eq!(after[1][2], 0);
    assert_eq!(after[0][2], 7);
    assert_eq!(after[10][3], 7);
    assert_eq!(after[11][3], 0);
}

#[test]
fn gravity_twice_is_gravity_once() {
    let mut board = empty_board();
    board[3][0] = 1;
    board[7][0] = 0;
    board[9][0] = 2;
    board[1][4] = 5;
    board[12][5] = 3;
    let mut player = Player::from_parts(board, [12; 6]).unwrap();
    player.apply_gravity();
    let once = player.get_board();
    let fill = player.get_bottom();
    assert_eq!(once[12][0], 2);
    assert_eq!(once[11][0], 0);
    assert_eq!(once[10][0], 1);
    assert_eq!(once[9][0], 7);
    assert_eq!(once[12][4], 5);
    assert_eq!(fill, [9, 12, 12, 12, 11, 11]);
    player.apply_gravity();
    assert_eq!(player.get_board(), once);
    assert_eq!(player.get_bottom(), fill);
}

#[test]
fn nuisance_below_seventy_stays() {
    let mut board = empty_board();
    for row in 9..13 {
        board[row][0] = 1;
        board[row][1] = 2;
    }
    board[8][0] = 1;
    // One pass, two colors, sizes 5 and 4: 270 points.
    let mut player = Player::from_parts(board, [7, 8, 12, 12, 12, 11]).unwrap();
    assert_eq!(player.play(0x34, 5), Ok(()));
    assert_eq!(player.get_score(), 270);
    assert_eq!(player.get_nuisance(), 270);
    assert_eq!(player.apply_nuisance(), 3);
    assert_eq!(player.get_nuisance(), 60);
    assert_eq!(player.apply_nuisance(), 0);
    assert_eq!(player.get_nuisance(), 60);
    assert_eq!(player.apply_nuisance(), 0);
    assert_eq!(player.get_nuisance(), 60);
    assert_eq!(player.get_score(), 270);
}

#[test]
fn reset_score_keeps_the_rest() {
    let mut board = empty_board();
    for row in 9..13 {
        board[row][0] = 1;
        board[row][1] = 2;
    }
    board[8][0] = 1;
    let mut player = Player::from_parts(board, [7, 8, 12, 12, 12, 11]).unwrap();
    assert_eq!(player.play(0x34, 5), Ok(()));
    let cells = player.get_board();
    player.reset_score();
    assert_eq!(player.get_score(), 0);
    assert_eq!(player.get_nuisance(), 270);
    assert_eq!(player.get_board(), cells);
}

#[test]
fn rows_are_printed_cell_by_cell() {
    let mut board = empty_board();
    board[12] = [0, 1, 5, 7, 9, 10];
    board[11] = [7, 7, 2, 3, 4, 255];
    let player = Player::from_parts(board, [12; 6]).unwrap();
    assert_eq!(player.get_row(12), "015-9?");
    assert_eq!(player.get_row(11), "--234?");
    assert_eq!(player.get_row(0), "------");
}

#[test]
fn place_lets_the_balls_fall_and_clears_nothing() {
    let mut board = empty_board();
    for row in 10..13 {
        board[row][2] = 3;
    }
    let mut player = Player::from_parts(board, [12, 12, 9, 12, 12, 12]).unwrap();
    assert_eq!(player.place(0x33, 2), Ok(()));
    assert_eq!(player.get_score(), 0);
    assert_eq!(player.get_bottom(), [12, 12, 7, 12, 12, 12]);
    for row in 8..13 {
        assert_eq!(player.get_board()[row][2], 3);
    }
    player.resolve();
    assert_eq!(player.get_score(), 10 * 5 * (0 + 0 + 1));
    assert_eq!(player.get_nuisance(), 50);
    assert_eq!(player.get_board(), empty_board());
    assert_eq!(player.get_bottom(), [12; 6]);
}

#[test]
fn place_fails_like_play() {
    let mut player = Player::new();
    for _ in 0..6 {
        assert_eq!(player.place(0x12, 0), Ok(()));
    }
    assert_eq!(player.place(0x12, 0), Err(GameError::BoardIsFull));
    assert_eq!(player.place(0x12, 17), Err(GameError::BoardIsFull));
    assert_eq!(player.get_bottom(), [0, 12, 12, 12, 12, 12]);
    // The first ball of a flat move finds room in column 1, the second
    // finds none in column 0.
    assert_eq!(player.place(0x12, 12 + 5 + 0), Err(GameError::BoardIsFull));
}

#[test]
fn drop_puts_the_ball_at_the_fill_index() {
    let mut player = Player::new();
    let before = player.get_board();
    assert_eq!(player.drop(4, 5), Ok(()));
    let after = player.get_board();
    assert_eq!(after[12][4], 5);
    assert_eq!(player.get_bottom(), [12, 12, 12, 12, 11, 12]);
    for row in 0..13 {
        for col in 0..6 {
            if (row, col) != (12, 4) {
                assert_eq!(after[row][col], before[row][col]);
            }
        }
    }
    for _ in 0..11 {
        assert_eq!(player.drop(4, 2), Ok(()));
    }
    assert_eq!(player.get_bottom()[4], 0);
    let full = player.get_board();
    assert_eq!(player.drop(4, 1), Err(GameError::BoardIsFull));
    assert_eq!(player.get_board(), full);
    assert_eq!(player.get_bottom()[4], 0);
    assert_eq!(full[0], [7; 6]);
    assert_eq!(player.get_score(), 0);
}

#[test]
fn the_guard_row_stays_empty_over_many_moves() {
    let mut player = Player::new();
    let pieces: [u8; 5] = [0x12, 0x34, 0x51, 0x23, 0x45];
    for i in 0..300usize {
        let position = ((i * 5 + i / 7) % 22) as u8;
        let _ = player.play(pieces[i % 5], position);
        assert_eq!(player.get_board()[0], [7; 6]);
        for fill in player.get_bottom() {
            assert!(fill <= 12);
        }
    }
}

use grid_game::webserver::{apply_user_input, check_if_any_winner, empty_board};

fn board() -> Vec<Vec<u8>> {
    vec![vec![0u8; 64]; 32]
}

#[test]
fn empty_board_has_no_winner() {
    let m = board();
    assert_eq!(check_if_any_winner(&m, 1), -1);
    assert_eq!(check_if_any_winner(&m, 2), -1);
}

#[test]
fn four_at_row_start_wins() {
    let mut m = board();
    for j in 0..4 {
        m[5][j] = 1;
    }
    assert_eq!(check_if_any_winner(&m, 1), 1);
    assert_eq!(check_if_any_winner(&m, 2), -1);
}

#[test]
fn four_in_middle_of_row_does_not_win() {
    let mut m = board();
    for j in 10..14 {
        m[7][j] = 2;
    }
    assert_eq!(check_if_any_winner(&m, 2), -1);
}

#[test]
fn five_in_middle_of_row_wins() {
    let mut m = board();
    for j in 10..15 {
        m[7][j] = 2;
    }
    assert_eq!(check_if_any_winner(&m, 2), 2);
    assert_eq!(check_if_any_winner(&m, 1), -1);
}

#[test]
fn split_row_runs_do_not_win() {
    let mut m = board();
    for j in [3, 4, 5, 7, 8, 9] {
        m[0][j] = 1;
    }
    assert_eq!(check_if_any_winner(&m, 1), -1);
}

#[test]
fn three_at_row_start_does_not_win() {
    let mut m = board();
    for j in 0..3 {
        m[2][j] = 1;
    }
    assert_eq!(check_if_any_winner(&m, 1), -1);
}

#[test]
fn four_at_column_start_wins() {
    let mut m = board();
    for i in 0..4 {
        m[i][30] = 1;
    }
    assert_eq!(check_if_any_winner(&m, 1), 1);
}

#[test]
fn column_rules_match_row_rules() {
    let mut m = board();
    for i in 3..7 {
        m[i][30] = 1;
    }
    assert_eq!(check_if_any_winner(&m, 1), -1);
    m[7][30] = 1;
    assert_eq!(check_if_any_winner(&m, 1), 1);
}

#[test]
fn diagonal_five_wins_and_four_does_not() {
    let mut m = board();
    for k in 0..4 {
        m[10 + k][20 + k] = 3;
    }
    assert_eq!(check_if_any_winner(&m, 3), -1);
    m[14][24] = 3;
    assert_eq!(check_if_any_winner(&m, 3), 3);
}

#[test]
fn diagonal_from_corner_needs_five() {
    let mut m = board();
    for k in 0..4 {
        m[k][k] = 1;
    }
    assert_eq!(check_if_any_winner(&m, 1), -1);
    m[4][4] = 1;
    assert_eq!(check_if_any_winner(&m, 1), 1);
}

#[test]
fn anti_diagonal_five_wins_and_four_does_not() {
    let mut m = board();
    for k in 0..4 {
        m[3 + k][40 - k] = 2;
    }
    assert_eq!(check_if_any_winner(&m, 2), -1);
    m[7][36] = 2;
    assert_eq!(check_if_any_winner(&m, 2), 2);
}

#[test]
fn anti_diagonal_at_right_edge() {
    let mut m = board();
    for k in 0..5 {
        m[27 + k][63 - k] = 1;
    }
    assert_eq!(check_if_any_winner(&m, 1), 1);
}

#[test]
fn player_number_is_taken_modulo_256() {
    let mut m = board();
    for j in 0..4 {
        m[0][j] = 1;
    }
    assert_eq!(check_if_any_winner(&m, 257), 257);
}

#[test]
fn small_and_ragged_boards() {
    let m = vec![vec![1u8, 1, 1, 1], vec![0u8, 0, 0, 0, 1]];
    assert_eq!(check_if_any_winner(&m, 1), 1);
    let m = vec![vec![1u8, 1, 1], vec![1u8, 1, 1, 1, 1]];
    assert_eq!(check_if_any_winner(&m, 1), -1);
    let m: Vec<Vec<u8>> = vec![vec![]];
    assert_eq!(check_if_any_winner(&m, 0), -1);
}

#[test]
fn own_move_keeps_a_win() {
    let mut m = board();
    for j in 0..4 {
        m[9][j] = 1;
    }
    assert_eq!(check_if_any_winner(&m, 1), 1);
    m[20][20] = 1;
    assert_eq!(check_if_any_winner(&m, 1), 1);
}

#[test]
fn other_move_breaks_but_never_makes_a_win() {
    let mut m = board();
    for j in 10..15 {
        m[9][j] = 1;
    }
    m[8][8] = 2;
    assert_eq!(check_if_any_winner(&m, 1), 1);
    m[9][12] = 2;
    assert_eq!(check_if_any_winner(&m, 1), -1);
    assert_eq!(check_if_any_winner(&m, 2), -1);
}

#[test]
fn apply_user_input_places_stone_and_records_move() {
    let mut m = empty_board(32, 64);
    let mut changes: Vec<(u8, u8, u8)> = Vec::new();
    for j in 0..3u8 {
        assert_eq!(apply_user_input(&mut m, &mut changes, [j, 6], 1), -1);
    }
    assert_eq!(m[6][0], 2);
    assert_eq!(m[6][2], 2);
    assert_eq!(changes, vec![(0, 6, 1), (1, 6, 1), (2, 6, 1)]);
    assert_eq!(apply_user_input(&mut m, &mut changes, [3, 6], 1), 2);
    assert_eq!(apply_user_input(&mut m, &mut changes, [5, 5], 0), -1);
    assert_eq!(m[5][5], 1);
    assert_eq!(changes.len(), 5);
    assert_eq!(changes[4], (5, 5, 0));
}

#[test]
fn empty_board_shape() {
    let m = empty_board(3, 5);
    assert_eq!(m, vec![vec![0u8; 5]; 3]);
}

fn transposed(m: &Vec<Vec<u8>>) -> Vec<Vec<u8>> {
    (0..m[0].len()).map(|j| m.iter().map(|row| row[j]).collect()).collect()
}

#[test]
fn rows_and_columns_are_judged_alike() {
    let mut boards = Vec::new();
    let mut m = board();
    for j in 0..4 {
        m[4][j] = 1;
    }
    boards.push(m);
    let mut m = board();
    for k in 0..5 {
        m[20 + k][50 - k] = 1;
    }
    boards.push(m);
    let mut m = board();
    for j in 5..9 {
        m[4][j] = 1;
    }
    boards.push(m);
    for m in boards {
        let t = transposed(&m);
        assert_eq!(check_if_any_winner(&m, 1), check_if_any_winner(&t, 1));
    }
}

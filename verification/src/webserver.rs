//! The server side of the game: the board, the winner rule, and the bytes
//! that the server sends to each player.

use vstd::prelude::*;
use crate::lines::{
    count_state, lemma_count_step, lemma_line_win_monotone, lemma_no_win, lemma_row_major,
    lemma_row_major_before, line_win, marks_from, next_count, no_win_before,
};

verus! {

/// The kind of message that the server sends ahead of each exchange.
#[derive(Debug, Clone, Copy, PartialEq, Eq, Structural)]
pub enum MessageType {
    Init,
    Update,
    Win,
    Lose,
}

/// The byte that announces a message of kind `t`.
pub open spec fn message_code(t: MessageType) -> u8 {
    match t {
        MessageType::Init => 0,
        MessageType::Update => 1,
        MessageType::Win => 2,
        MessageType::Lose => 3,
    }
}

impl MessageType {
    /// The one-byte message by which the server announces this kind.
    pub fn to_bytes(self) -> (buffer: [u8; 1])
        ensures
            buffer@ == seq![message_code(self)],
    {
        let buffer: [u8; 1] = match self {
            MessageType::Init => [0],
            MessageType::Update => [1],
            MessageType::Win => [2],
            MessageType::Lose => [3],
        };
        assert(buffer@ =~= seq![message_code(self)]);
        buffer
    }
}

/// What a player is told at the end of the game: `Win` for the player
/// whose number is `winner`, `Lose` for every other player.
pub fn final_message(user_id: i32, winner: i32) -> (message_type: MessageType)
    ensures
        message_type == (if user_id == winner { MessageType::Win } else { MessageType::Lose }),
{
    if user_id == winner {
        MessageType::Win
    } else {
        MessageType::Lose
    }
}

/// How the receiving player `me` sees a cell of value `v`: 1 for its own
/// stone, 0 for an empty cell, 2 for anyone else's stone.
pub open spec fn cell_view(v: u8, me: u8) -> u8 {
    if v == me {
        1
    } else if v == 0 {
        0
    } else {
        2
    }
}

/// `bytes` is the initial-map message for player `me`: the `map_y` rows of
/// `map_x` cells of `b`, row after row, each as `me` sees it.
pub open spec fn init_map_message(b: Seq<Seq<u8>>, map_x: int, map_y: int, me: u8, bytes: Seq<u8>) -> bool {
    &&& bytes.len() == map_x * map_y
    &&& forall|i: int, j: int|
        0 <= i < map_y && 0 <= j < map_x ==> #[trigger] bytes[i * map_x + j] == cell_view(b[i][j], me)
}

/// The initial-map message that the server sends to player `user_idx`: the
/// top-left `map_y` rows of `map_x` cells, row after row, with 1 for the
/// player's own stones (cells equal to `user_idx as u8`), 0 for empty cells
/// and 2 for the other players' stones.
pub fn encode_init_map(_matrix: &Vec<Vec<u8>>, map_x: usize, map_y: usize, user_idx: i32) -> (matrix: Vec<u8>)
    requires
        map_x * map_y <= usize::MAX,
        map_y <= _matrix@.len(),
        forall|i: int| 0 <= i < map_y ==> map_x <= #[trigger] _matrix@[i]@.len(),
    ensures
        init_map_message(board(_matrix), map_x as int, map_y as int, user_idx as u8, matrix@),
{
    let ghost b = board(_matrix);
    let ghost me = user_idx as u8;
    let mut matrix: Vec<u8> = Vec::new();
    let mut i: usize = 0;
    while i < map_y
        invariant
            b == board(_matrix),
            me == user_idx as u8,
            map_x * map_y <= usize::MAX,
            map_y <= _matrix@.len(),
            forall|r: int| 0 <= r < map_y ==> map_x <= #[trigger] _matrix@[r]@.len(),
            i <= map_y,
            matrix@.len() == i * map_x,
            forall|r: int, c: int|
                0 <= r < i && 0 <= c < map_x ==> #[trigger] matrix@[r * map_x + c] == cell_view(b[r][c], me),
        decreases map_y - i,
    {
        let mut j: usize = 0;
        while j < map_x
            invariant
                b == board(_matrix),
                me == user_idx as u8,
                map_x * map_y <= usize::MAX,
                map_y <= _matrix@.len(),
                forall|r: int| 0 <= r < map_y ==> map_x <= #[trigger] _matrix@[r]@.len(),
                i < map_y,
                j <= map_x,
                matrix@.len() == i * map_x + j,
                forall|r: int, c: int|
                    0 <= r < i && 0 <= c < map_x ==> #[trigger] matrix@[r * map_x + c] == cell_view(b[r][c], me),
                forall|c: int| 0 <= c < j ==> #[trigger] matrix@[i * map_x + c] == cell_view(b[i as int][c], me),
            decreases map_x - j,
        {
            proof {
                lemma_row_major(i as int, j as int, map_x as int, map_y as int);
            }
            let v = _matrix[i][j];
            if v == user_idx as u8 {
                matrix.push(1);
            } else if v == 0 {
                matrix.push(0);
            } else {
                matrix.push(2);
            }
            proof {
                assert forall|r: int, c: int| 0 <= r < i && 0 <= c < map_x implies #[trigger] matrix@[r * map_x + c]
                    == cell_view(b[r][c], me) by {
                    lemma_row_major_before(r, c, i as int, map_x as int);
                }
            }
            j += 1;
        }
        proof {
            assert((i + 1) * map_x == i * map_x + map_x) by (nonlinear_arith);
            assert forall|r: int, c: int| 0 <= r < i + 1 && 0 <= c < map_x implies #[trigger] matrix@[r * map_x + c]
                == cell_view(b[r][c], me) by {
                if r < i {
                } else {
                    assert(matrix@[i * map_x + c] == cell_view(b[i as int][c], me));
                }
            }
        }
        i += 1;
    }
    assert(map_y * map_x == map_x * map_y) by (nonlinear_arith);
    matrix
}

/// The `k`-th (x, y, value) entry of an update message.
pub open spec fn update_entry(bytes: Seq<u8>, k: int) -> (u8, u8, u8) {
    (bytes[3 * k + 1], bytes[3 * k + 2], bytes[3 * k + 3])
}

/// How the receiving player `me` (counted from 0) sees a move made by
/// player `uid` (counted from 0): 1 for its own move, 2 for anyone else's.
pub open spec fn move_view(uid: u8, me: i32) -> u8 {
    if me == uid as i32 {
        1
    } else {
        2
    }
}

/// `bytes` is the 128-byte update message for player `me` that carries the
/// last `n` of the moves `changes`: its first byte is `3 * n + 1`, entry `k`
/// is the position of the `k`-th of those moves with the value `me` sees
/// there, and every later byte is 0.
pub open spec fn update_message(changes: Seq<(u8, u8, u8)>, n: int, me: i32, bytes: Seq<u8>) -> bool {
    &&& bytes.len() == 128
    &&& bytes[0] == 3 * n + 1
    &&& forall|k: int|
        0 <= k < n ==> #[trigger] update_entry(bytes, k) == {
            let change = changes[changes.len() - n + k];
            (change.0, change.1, move_view(change.2, me))
        }
    &&& forall|t: int| 3 * n + 1 <= t < 128 ==> #[trigger] bytes[t] == 0
}

/// The update message that the server sends to player `user_idx` (counted
/// from 0): the last `user_num` moves of `user_input_vec`, each as
/// (x, y, 1) when the player made it and (x, y, 2) otherwise, after a first
/// byte of `3 * user_num + 1`, in a buffer of 128 bytes.
pub fn encode_update(user_input_vec: &Vec<(u8, u8, u8)>, user_num: i32, user_idx: i32) -> (buffer: Vec<u8>)
    requires
        0 <= user_num <= 42,
        user_num <= user_input_vec@.len(),
    ensures
        update_message(user_input_vec@, user_num as int, user_idx, buffer@),
{
    let mut buffer: Vec<u8> = vec![0; 128];
    let vec_len = user_input_vec.len();
    buffer[0] = 3 * user_num as u8 + 1;
    let start = vec_len - user_num as usize;
    let mut idx: usize = 0;
    while idx < user_num as usize
        invariant
            0 <= user_num <= 42,
            vec_len == user_input_vec@.len(),
            user_num <= vec_len,
            start == vec_len - user_num,
            idx <= user_num,
            buffer@.len() == 128,
            buffer@[0] == 3 * user_num + 1,
            forall|k: int|
                0 <= k < idx ==> #[trigger] update_entry(buffer@, k) == {
                    let change = user_input_vec@[vec_len - user_num + k];
                    (change.0, change.1, move_view(change.2, user_idx))
                },
            forall|t: int| 3 * idx + 1 <= t < 128 ==> #[trigger] buffer@[t] == 0,
        decreases user_num - idx,
    {
        let (x, y, uid) = user_input_vec[start + idx];
        let ghost before = buffer@;
        buffer[3 * idx + 1] = x;
        buffer[3 * idx + 2] = y;
        if user_idx == uid as i32 {
            buffer[3 * idx + 3] = 1;
        } else {
            buffer[3 * idx + 3] = 2;
        }
        proof {
            assert forall|k: int| 0 <= k < idx + 1 implies #[trigger] update_entry(buffer@, k) == {
                let change = user_input_vec@[vec_len - user_num + k];
                (change.0, change.1, move_view(change.2, user_idx))
            } by {
                if k < idx {
                    assert(update_entry(before, k) == update_entry(buffer@, k));
                }
            }
        }
        idx += 1;
    }
    buffer
}

/// Applies player `user_id`'s move (counted from 0) to the board: puts the
/// stone `1 + user_id` on column `user_input[0]`, row `user_input[1]`,
/// records (x, y, `user_id`) among the moves, and checks whether that
/// player (numbered `1 + user_id`) has now won.
pub fn apply_user_input(
    matrix: &mut Vec<Vec<u8>>,
    change_vec: &mut Vec<(u8, u8, u8)>,
    user_input: [u8; 2],
    user_id: usize,
) -> (winner: i32)
    requires
        (user_id as u8) < 255,
        user_id < usize::MAX,
        well_formed_board(board(old(matrix))),
        old(matrix)@.len() <= i32::MAX,
        old(matrix)@[0]@.len() <= i32::MAX,
        (user_input@[1] as int) < old(matrix)@.len(),
        (user_input@[0] as int) < old(matrix)@[user_input@[1] as int]@.len(),
    ensures
        board(final(matrix)) == board(old(matrix)).update(
            user_input@[1] as int,
            board(old(matrix))[user_input@[1] as int].update(user_input@[0] as int, (1 + user_id as u8) as u8),
        ),
        final(change_vec)@ == old(change_vec)@.push((user_input@[0], user_input@[1], user_id as u8)),
        winner == if wins(board(final(matrix)), (1 + user_id) as u8) {
            (1 + user_id) as i32
        } else {
            -1i32
        },
{
    let x = user_input[0] as usize;
    let y = user_input[1] as usize;
    let ghost old_board = board(matrix);
    matrix[y][x] = 1 + user_id as u8;
    change_vec.push((user_input[0], user_input[1], user_id as u8));
    proof {
        let nb = board(matrix);
        assert(nb =~= old_board.update(y as int, old_board[y as int].update(x as int, (1 + user_id as u8) as u8)));
        assert forall|i: int| 0 <= i < nb.len() implies #[trigger] nb[i].len() >= nb[0].len() by {
            assert(old_board[i].len() >= old_board[0].len());
        }
    }
    check_if_any_winner(matrix, 1 + user_id)
}

/// The board as a sequence of rows of cell values (0 for an empty cell,
/// `n` for a stone of player `n`).
pub open spec fn board(matrix: &Vec<Vec<u8>>) -> Seq<Seq<u8>> {
    matrix@.map_values(|row: Vec<u8>| row@)
}

/// A board with at least one row, whose first row's length is the number
/// of columns and no row shorter than that.
pub open spec fn well_formed_board(b: Seq<Seq<u8>>) -> bool {
    &&& b.len() > 0
    &&& forall|i: int| 0 <= i < b.len() ==> #[trigger] b[i].len() >= b[0].len()
}

/// Cell (`i`, `j`) lies on the board (row `i`, column `j` below the width
/// of the first row) and holds player `p`'s stone.
pub open spec fn owned(b: Seq<Seq<u8>>, p: u8, i: int, j: int) -> bool {
    &&& 0 <= i < b.len()
    &&& 0 <= j < b[0].len()
    &&& b[i][j] == p
}

/// Which cells of row `i` hold player `p`'s stones.
pub open spec fn row_line(b: Seq<Seq<u8>>, p: u8, i: int) -> Seq<bool> {
    Seq::new(b[0].len(), |j: int| b[i][j] == p)
}

/// Which cells of column `j` hold player `p`'s stones.
pub open spec fn column_line(b: Seq<Seq<u8>>, p: u8, j: int) -> Seq<bool> {
    Seq::new(b.len(), |i: int| b[i][j] == p)
}

/// The `k`-th cell down and to the right of (`i`, `j`) holds `p`'s stone.
pub open spec fn diagonal_cell(b: Seq<Seq<u8>>, p: u8, i: int, j: int, k: int) -> bool {
    owned(b, p, i + k, j + k)
}

/// The `k`-th cell down and to the left of (`i`, `j`) holds `p`'s stone.
pub open spec fn anti_diagonal_cell(b: Seq<Seq<u8>>, p: u8, i: int, j: int, k: int) -> bool {
    owned(b, p, i + k, j - k)
}

/// Five of `p`'s stones run down and to the right from (`i`, `j`).
pub open spec fn diagonal_run(b: Seq<Seq<u8>>, p: u8, i: int, j: int) -> bool {
    forall|k: int| 0 <= k < 5 ==> #[trigger] diagonal_cell(b, p, i, j, k)
}

/// Five of `p`'s stones run down and to the left from (`i`, `j`).
pub open spec fn anti_diagonal_run(b: Seq<Seq<u8>>, p: u8, i: int, j: int) -> bool {
    forall|k: int| 0 <= k < 5 ==> #[trigger] anti_diagonal_cell(b, p, i, j, k)
}

/// Player `p` has won: some row or column starts with four of `p`'s stones
/// or holds five in a row, or five of them stand in a row along a diagonal.
pub open spec fn wins(b: Seq<Seq<u8>>, p: u8) -> bool {
    ||| exists|i: int| 0 <= i < b.len() && line_win(#[trigger] row_line(b, p, i))
    ||| exists|j: int| 0 <= j < b[0].len() && line_win(#[trigger] column_line(b, p, j))
    ||| exists|i: int, j: int| #[trigger] diagonal_run(b, p, i, j)
    ||| exists|i: int, j: int| #[trigger] anti_diagonal_run(b, p, i, j)
}

/// Whether row `i` starts with four of `p`'s stones or holds five in a row.
fn row_has_line(matrix: &Vec<Vec<u8>>, p: u8, i: usize, cols: usize) -> (found: bool)
    requires
        well_formed_board(board(matrix)),
        i < matrix@.len(),
        cols == matrix@[0]@.len(),
        cols <= i32::MAX,
    ensures
        found == line_win(row_line(board(matrix), p, i as int)),
{
    let ghost b = board(matrix);
    let ghost line = row_line(b, p, i as int);
    assert(b[i as int].len() >= cols);
    let mut row_line_len: i32 = 0;
    let mut j: usize = 0;
    while j < cols
        invariant
            b == board(matrix),
            well_formed_board(b),
            i < matrix@.len(),
            cols == matrix@[0]@.len(),
            cols <= i32::MAX,
            line == row_line(b, p, i as int),
            j <= cols,
            count_state(line, j as int, row_line_len as int),
            no_win_before(line, j as int),
        decreases cols - j,
    {
        let ghost before = row_line_len as int;
        assert(b[i as int].len() >= b[0].len());
        if j > 0 && matrix[i][j] == p && matrix[i][j - 1] != p {
            row_line_len = 0;
        } else if matrix[i][j] == p {
            row_line_len += 1;
        }
        proof {
            lemma_count_step(line, j as int, before);
        }
        assert(row_line_len == next_count(line, j as int, before));
        if row_line_len >= 4 {
            return true;
        }
        j += 1;
    }
    proof {
        lemma_no_win(line);
    }
    false
}

/// Whether column `j` starts with four of `p`'s stones or holds five in a
/// row.
fn column_has_line(matrix: &Vec<Vec<u8>>, p: u8, j: usize, rows: usize) -> (found: bool)
    requires
        well_formed_board(board(matrix)),
        j < matrix@[0]@.len(),
        rows == matrix@.len(),
        rows <= i32::MAX,
    ensures
        found == line_win(column_line(board(matrix), p, j as int)),
{
    let ghost b = board(matrix);
    let ghost line = column_line(b, p, j as int);
    let mut col_line_len: i32 = 0;
    let mut i: usize = 0;
    while i < rows
        invariant
            b == board(matrix),
            well_formed_board(b),
            j < matrix@[0]@.len(),
            rows == matrix@.len(),
            rows <= i32::MAX,
            line == column_line(b, p, j as int),
            i <= rows,
            count_state(line, i as int, col_line_len as int),
            no_win_before(line, i as int),
        decreases rows - i,
    {
        let ghost before = col_line_len as int;
        assert(b[i as int].len() >= b[0].len());
        if i > 0 {
            assert(b[i - 1].len() >= b[0].len());
        }
        if i > 0 && matrix[i][j] == p && matrix[i - 1][j] != p {
            col_line_len = 0;
        } else if matrix[i][j] == p {
            col_line_len += 1;
        }
        proof {
            lemma_count_step(line, i as int, before);
        }
        assert(col_line_len == next_count(line, i as int, before));
        if col_line_len >= 4 {
            return true;
        }
        i += 1;
    }
    proof {
        lemma_no_win(line);
    }
    false
}


/// Whether five of `p`'s stones stand in a row along the down-right
/// diagonal through (`i`, `j`) and (`i - 1`, `j - 1`), both of them `p`'s:
/// counts the stones up-left from (`i - 1`, `j - 1`) and down-right from
/// (`i + 1`, `j + 1`).
fn diagonal_has_line(matrix: &Vec<Vec<u8>>, p: u8, i: usize, j: usize, rows: usize, cols: usize) -> (found: bool)
    requires
        well_formed_board(board(matrix)),
        rows == matrix@.len(),
        cols == matrix@[0]@.len(),
        rows <= i32::MAX,
        cols <= i32::MAX,
        0 < i < rows,
        0 < j < cols,
        owned(board(matrix), p, i as int, j as int),
        owned(board(matrix), p, i - 1, j - 1),
    ensures
        found == exists|t: int| 1 <= t <= 4 && #[trigger] diagonal_run(board(matrix), p, i - t, j - t),
{
    let ghost b = board(matrix);
    assert forall|r: int| 0 <= r < matrix@.len() implies cols <= #[trigger] matrix@[r]@.len() by {
        assert(b[r].len() >= b[0].len());
    }
    let mut up: usize = 0;
    while up < i && up < j && matrix[i - 1 - up][j - 1 - up] == p
        invariant
            b == board(matrix),
            well_formed_board(b),
            forall|r: int| 0 <= r < matrix@.len() ==> cols <= #[trigger] matrix@[r]@.len(),
            rows == matrix@.len(),
            cols == matrix@[0]@.len(),
            0 < i < rows,
            0 < j < cols,
            up <= i,
            up <= j,
            forall|k: int| 0 <= k < up ==> #[trigger] owned(b, p, i - 1 - k, j - 1 - k),
        decreases i - up,
    {
        assert(b[i - 1 - up].len() >= b[0].len());
        up += 1;
    }
    let mut down: usize = 0;
    while i + 1 + down < rows && j + 1 + down < cols && matrix[i + 1 + down][j + 1 + down] == p
        invariant
            b == board(matrix),
            well_formed_board(b),
            forall|r: int| 0 <= r < matrix@.len() ==> cols <= #[trigger] matrix@[r]@.len(),
            rows == matrix@.len(),
            cols == matrix@[0]@.len(),
            rows <= i32::MAX,
            cols <= i32::MAX,
            i + down < rows,
            j + down < cols,
            forall|k: int| 0 <= k < down ==> #[trigger] owned(b, p, i + 1 + k, j + 1 + k),
        decreases rows - i - down,
    {
        assert(b[i + 1 + down].len() >= b[0].len());
        down += 1;
    }
    let diag_line_len = 2 + up + down;
    proof {
        if diag_line_len >= 6 {
            let t: int = if up < 4 { up as int } else { 4 };
            assert forall|k: int| 0 <= k < 5 implies #[trigger] diagonal_cell(b, p, i - t, j - t, k) by {
                if k < t {
                    assert(owned(b, p, i - 1 - (t - 1 - k), j - 1 - (t - 1 - k)));
                } else if k > t {
                    assert(owned(b, p, i + 1 + (k - t - 1), j + 1 + (k - t - 1)));
                }
            }
            assert(diagonal_run(b, p, i - t, j - t));
        } else {
            assert forall|t: int| 1 <= t <= 4 implies !#[trigger] diagonal_run(b, p, i - t, j - t) by {
                if diagonal_run(b, p, i - t, j - t) {
                    if up < t {
                        assert(diagonal_cell(b, p, i - t, j - t, t - 1 - up));
                        assert(b[i - 1 - up].len() >= b[0].len());
                    } else {
                        assert(diagonal_cell(b, p, i - t, j - t, t + 1 + down));
                        assert(b[i + 1 + down].len() >= b[0].len());
                    }
                }
            }
        }
    }
    diag_line_len >= 6
}

/// Whether five of `p`'s stones stand in a row along the down-left
/// diagonal through (`i`, `j`) and (`i - 1`, `j + 1`), both of them `p`'s:
/// counts the stones up-right from (`i - 1`, `j + 1`) and down-left from
/// (`i + 1`, `j - 1`).
fn anti_diagonal_has_line(matrix: &Vec<Vec<u8>>, p: u8, i: usize, j: usize, rows: usize, cols: usize) -> (found: bool)
    requires
        well_formed_board(board(matrix)),
        rows == matrix@.len(),
        cols == matrix@[0]@.len(),
        rows <= i32::MAX,
        cols <= i32::MAX,
        0 < i < rows,
        j + 1 < cols,
        owned(board(matrix), p, i as int, j as int),
        owned(board(matrix), p, i - 1, j + 1),
    ensures
        found == exists|t: int| 1 <= t <= 4 && #[trigger] anti_diagonal_run(board(matrix), p, i - t, j + t),
{
    let ghost b = board(matrix);
    assert forall|r: int| 0 <= r < matrix@.len() implies cols <= #[trigger] matrix@[r]@.len() by {
        assert(b[r].len() >= b[0].len());
    }
    let mut up: usize = 0;
    while up < i && j + 1 + up < cols && matrix[i - 1 - up][j + 1 + up] == p
        invariant
            b == board(matrix),
            well_formed_board(b),
            forall|r: int| 0 <= r < matrix@.len() ==> cols <= #[trigger] matrix@[r]@.len(),
            rows == matrix@.len(),
            cols == matrix@[0]@.len(),
            cols <= i32::MAX,
            0 < i < rows,
            j + 1 < cols,
            up <= i,
            j + up < cols,
            forall|k: int| 0 <= k < up ==> #[trigger] owned(b, p, i - 1 - k, j + 1 + k),
        decreases i - up,
    {
        assert(b[i - 1 - up].len() >= b[0].len());
        up += 1;
    }
    let mut down: usize = 0;
    while i + 1 + down < rows && down < j && matrix[i + 1 + down][j - 1 - down] == p
        invariant
            b == board(matrix),
            well_formed_board(b),
            forall|r: int| 0 <= r < matrix@.len() ==> cols <= #[trigger] matrix@[r]@.len(),
            rows == matrix@.len(),
            cols == matrix@[0]@.len(),
            rows <= i32::MAX,
            j + 1 < cols,
            i + down < rows,
            down <= j,
            forall|k: int| 0 <= k < down ==> #[trigger] owned(b, p, i + 1 + k, j - 1 - k),
        decreases j - down,
    {
        assert(b[i + 1 + down].len() >= b[0].len());
        down += 1;
    }
    let diag_line_len = 2 + up + down;
    proof {
        if diag_line_len >= 6 {
            let t: int = if up < 4 { up as int } else { 4 };
            assert forall|k: int| 0 <= k < 5 implies #[trigger] anti_diagonal_cell(b, p, i - t, j + t, k) by {
                if k < t {
                    assert(owned(b, p, i - 1 - (t - 1 - k), j + 1 + (t - 1 - k)));
                } else if k > t {
                    assert(owned(b, p, i + 1 + (k - t - 1), j - 1 - (k - t - 1)));
                }
            }
            assert(anti_diagonal_run(b, p, i - t, j + t));
        } else {
            assert forall|t: int| 1 <= t <= 4 implies !#[trigger] anti_diagonal_run(b, p, i - t, j + t) by {
                if anti_diagonal_run(b, p, i - t, j + t) {
                    if up < t {
                        assert(anti_diagonal_cell(b, p, i - t, j + t, t - 1 - up));
                        assert(b[i - 1 - up].len() >= b[0].len());
                    } else {
                        assert(anti_diagonal_cell(b, p, i - t, j + t, t + 1 + down));
                        assert(b[i + 1 + down].len() >= b[0].len());
                    }
                }
            }
        }
    }
    diag_line_len >= 6
}


/// Cell (`r`, `c`) comes before (`i`, `j`) in row-major order.
pub open spec fn scanned_before(r: int, c: int, i: int, j: int) -> bool {
    r < i || (r == i && c < j)
}

/// Returns `user_id` (as an `i32`) when the player whose stones are
/// `user_id as u8` has won on the board, and -1 otherwise.
pub fn check_if_any_winner(_matrix: &Vec<Vec<u8>>, user_id: usize) -> (winner: i32)
    requires
        well_formed_board(board(_matrix)),
        _matrix@.len() <= i32::MAX,
        _matrix@[0]@.len() <= i32::MAX,
    ensures
        winner == if wins(board(_matrix), user_id as u8) { user_id as i32 } else { -1i32 },
        winner == if has_winning_line(board(_matrix), user_id as u8) { user_id as i32 } else { -1i32 },
{
    proof {
        lemma_wins_iff_winning_line(board(_matrix), user_id as u8);
    }
    let ghost b = board(_matrix);
    let p = user_id as u8;
    let rows = _matrix.len();
    let cols = _matrix[0].len();
    let mut i: usize = 0;
    while i < rows
        invariant
            b == board(_matrix),
            well_formed_board(b),
            rows == _matrix@.len(),
            cols == _matrix@[0]@.len(),
            rows <= i32::MAX,
            cols <= i32::MAX,
            p == user_id as u8,
            wins(b, p) == has_winning_line(b, p),
            i <= rows,
            forall|r: int| 0 <= r < i ==> !line_win(#[trigger] row_line(b, p, r)),
        decreases rows - i,
    {
        if row_has_line(_matrix, p, i, cols) {
            return user_id as i32;
        }
        i += 1;
    }
    let mut j: usize = 0;
    while j < cols
        invariant
            b == board(_matrix),
            well_formed_board(b),
            rows == _matrix@.len(),
            cols == _matrix@[0]@.len(),
            rows <= i32::MAX,
            cols <= i32::MAX,
            p == user_id as u8,
            wins(b, p) == has_winning_line(b, p),
            j <= cols,
            forall|r: int| 0 <= r < rows ==> !line_win(#[trigger] row_line(b, p, r)),
            forall|c: int| 0 <= c < j ==> !line_win(#[trigger] column_line(b, p, c)),
        decreases cols - j,
    {
        if column_has_line(_matrix, p, j, rows) {
            return user_id as i32;
        }
        j += 1;
    }
    assert forall|r: int| 0 <= r < _matrix@.len() implies cols <= #[trigger] _matrix@[r]@.len() by {
        assert(b[r].len() >= b[0].len());
    }
    assert forall|r: int, c: int| r + 1 < 0 implies !#[trigger] diagonal_run(b, p, r, c) by {
        if diagonal_run(b, p, r, c) {
            assert(diagonal_cell(b, p, r, c, 0));
        }
    }
    assert forall|r: int, c: int| r + 1 < 0 implies !#[trigger] anti_diagonal_run(b, p, r, c) by {
        if anti_diagonal_run(b, p, r, c) {
            assert(anti_diagonal_cell(b, p, r, c, 0));
        }
    }
    let mut i: usize = 0;
    while i < rows
        invariant
            b == board(_matrix),
            well_formed_board(b),
            forall|r: int| 0 <= r < _matrix@.len() ==> cols <= #[trigger] _matrix@[r]@.len(),
            rows == _matrix@.len(),
            cols == _matrix@[0]@.len(),
            rows <= i32::MAX,
            cols <= i32::MAX,
            p == user_id as u8,
            wins(b, p) == has_winning_line(b, p),
            i <= rows,
            forall|r: int| 0 <= r < rows ==> !line_win(#[trigger] row_line(b, p, r)),
            forall|c: int| 0 <= c < cols ==> !line_win(#[trigger] column_line(b, p, c)),
            forall|r: int, c: int| r + 1 < i ==> !#[trigger] diagonal_run(b, p, r, c),
            forall|r: int, c: int| r + 1 < i ==> !#[trigger] anti_diagonal_run(b, p, r, c),
        decreases rows - i,
    {
        assert forall|r: int, c: int|
            scanned_before(r + 1, c + 1, i as int, 0) implies !#[trigger] diagonal_run(b, p, r, c) by {
            if r + 1 == i && diagonal_run(b, p, r, c) {
                assert(diagonal_cell(b, p, r, c, 0));
            }
        }
        assert forall|r: int, c: int|
            scanned_before(r + 1, c - 1, i as int, 0) implies !#[trigger] anti_diagonal_run(b, p, r, c) by {
            if r + 1 == i && anti_diagonal_run(b, p, r, c) {
                assert(anti_diagonal_cell(b, p, r, c, 4));
            }
        }
        let mut j: usize = 0;
        while j < cols
            invariant
                b == board(_matrix),
                well_formed_board(b),
                forall|r: int| 0 <= r < _matrix@.len() ==> cols <= #[trigger] _matrix@[r]@.len(),
                rows == _matrix@.len(),
                cols == _matrix@[0]@.len(),
                rows <= i32::MAX,
                cols <= i32::MAX,
                p == user_id as u8,
                wins(b, p) == has_winning_line(b, p),
            wins(b, p) == has_winning_line(b, p),
                i < rows,
                j <= cols,
                forall|r: int| 0 <= r < rows ==> !line_win(#[trigger] row_line(b, p, r)),
                forall|c: int| 0 <= c < cols ==> !line_win(#[trigger] column_line(b, p, c)),
                forall|r: int, c: int|
                    scanned_before(r + 1, c + 1, i as int, j as int) ==> !#[trigger] diagonal_run(b, p, r, c),
                forall|r: int, c: int|
                    scanned_before(r + 1, c - 1, i as int, j as int) ==> !#[trigger] anti_diagonal_run(b, p, r, c),
            decreases cols - j,
        {
            if i > 0 && j > 0 && _matrix[i][j] == p && _matrix[i - 1][j - 1] == p {
                if diagonal_has_line(_matrix, p, i, j, rows, cols) {
                    return user_id as i32;
                }
            }
            if i > 0 && j + 1 < cols && _matrix[i][j] == p && _matrix[i - 1][j + 1] == p {
                if anti_diagonal_has_line(_matrix, p, i, j, rows, cols) {
                    return user_id as i32;
                }
            }
            proof {
                if diagonal_run(b, p, i - 1, j - 1) {
                    assert(diagonal_cell(b, p, i - 1, j - 1, 0));
                    assert(diagonal_cell(b, p, i - 1, j - 1, 1));
                    assert(diagonal_run(b, p, i - 1, j - 1));
                }
                if anti_diagonal_run(b, p, i - 1, j + 1) {
                    assert(anti_diagonal_cell(b, p, i - 1, j + 1, 0));
                    assert(anti_diagonal_cell(b, p, i - 1, j + 1, 1));
                    assert(anti_diagonal_run(b, p, i - 1, j + 1));
                }
                assert forall|r: int, c: int|
                    scanned_before(r + 1, c + 1, i as int, j + 1) implies !#[trigger] diagonal_run(b, p, r, c) by {
                    if !scanned_before(r + 1, c + 1, i as int, j as int) {
                        assert(r == i - 1 && c == j - 1);
                    }
                }
                assert forall|r: int, c: int|
                    scanned_before(r + 1, c - 1, i as int, j + 1) implies !#[trigger] anti_diagonal_run(b, p, r, c) by {
                    if !scanned_before(r + 1, c - 1, i as int, j as int) {
                        assert(r == i - 1 && c == j + 1);
                    }
                }
            }
            j += 1;
        }
        proof {
            assert forall|r: int, c: int| r + 1 < i + 1 implies !#[trigger] diagonal_run(b, p, r, c) by {
                if r + 1 == i && diagonal_run(b, p, r, c) {
                    assert(diagonal_cell(b, p, r, c, 1));
                    assert(scanned_before(r + 1, c + 1, i as int, cols as int));
                }
            }
            assert forall|r: int, c: int| r + 1 < i + 1 implies !#[trigger] anti_diagonal_run(b, p, r, c) by {
                if r + 1 == i && anti_diagonal_run(b, p, r, c) {
                    assert(anti_diagonal_cell(b, p, r, c, 1));
                    assert(scanned_before(r + 1, c - 1, i as int, cols as int));
                }
            }
        }
        i += 1;
    }
    proof {
        assert forall|r: int, c: int| !#[trigger] diagonal_run(b, p, r, c) by {
            if diagonal_run(b, p, r, c) {
                assert(diagonal_cell(b, p, r, c, 1));
            }
        }
        assert forall|r: int, c: int| !#[trigger] anti_diagonal_run(b, p, r, c) by {
            if anti_diagonal_run(b, p, r, c) {
                assert(anti_diagonal_cell(b, p, r, c, 1));
            }
        }
    }
    -1
}


/// Every stone of player `p` on board `b1` stands on board `b2` too, and
/// the two boards have the same numbers of rows and columns.
pub open spec fn stones_kept(b1: Seq<Seq<u8>>, b2: Seq<Seq<u8>>, p: u8) -> bool {
    &&& b1.len() == b2.len()
    &&& b1.len() > 0
    &&& b1[0].len() == b2[0].len()
    &&& forall|i: int, j: int| #[trigger] owned(b1, p, i, j) ==> owned(b2, p, i, j)
}

/// A player who has won on a board has also won on any board that keeps
/// all of that player's stones.
pub proof fn lemma_wins_kept(b1: Seq<Seq<u8>>, b2: Seq<Seq<u8>>, p: u8)
    requires
        stones_kept(b1, b2, p),
    ensures
        wins(b1, p) ==> wins(b2, p),
{
    if exists|i: int| 0 <= i < b1.len() && line_win(#[trigger] row_line(b1, p, i)) {
        let i = choose|i: int| 0 <= i < b1.len() && line_win(#[trigger] row_line(b1, p, i));
        assert forall|k: int| 0 <= k < row_line(b1, p, i).len() && #[trigger] row_line(b1, p, i)[k]
            implies row_line(b2, p, i)[k] by {
            assert(owned(b1, p, i, k));
        }
        lemma_line_win_monotone(row_line(b1, p, i), row_line(b2, p, i));
        assert(line_win(row_line(b2, p, i)));
    } else if exists|j: int| 0 <= j < b1[0].len() && line_win(#[trigger] column_line(b1, p, j)) {
        let j = choose|j: int| 0 <= j < b1[0].len() && line_win(#[trigger] column_line(b1, p, j));
        assert forall|k: int| 0 <= k < column_line(b1, p, j).len() && #[trigger] column_line(b1, p, j)[k]
            implies column_line(b2, p, j)[k] by {
            assert(owned(b1, p, k, j));
        }
        lemma_line_win_monotone(column_line(b1, p, j), column_line(b2, p, j));
        assert(line_win(column_line(b2, p, j)));
    } else if exists|i: int, j: int| #[trigger] diagonal_run(b1, p, i, j) {
        let (i, j) = choose|i: int, j: int| #[trigger] diagonal_run(b1, p, i, j);
        assert forall|k: int| 0 <= k < 5 implies #[trigger] diagonal_cell(b2, p, i, j, k) by {
            assert(diagonal_cell(b1, p, i, j, k));
            assert(owned(b1, p, i + k, j + k));
        }
        assert(diagonal_run(b2, p, i, j));
    } else if exists|i: int, j: int| #[trigger] anti_diagonal_run(b1, p, i, j) {
        let (i, j) = choose|i: int, j: int| #[trigger] anti_diagonal_run(b1, p, i, j);
        assert forall|k: int| 0 <= k < 5 implies #[trigger] anti_diagonal_cell(b2, p, i, j, k) by {
            assert(anti_diagonal_cell(b1, p, i, j, k));
            assert(owned(b1, p, i + k, j - k));
        }
        assert(anti_diagonal_run(b2, p, i, j));
    }
}

/// A player who has won still has won after placing one more stone
/// anywhere on the board.
pub proof fn lemma_own_move_keeps_win(b: Seq<Seq<u8>>, p: u8, i: int, j: int)
    requires
        well_formed_board(b),
        0 <= i < b.len(),
        0 <= j < b[i].len(),
    ensures
        wins(b, p) ==> wins(b.update(i, b[i].update(j, p)), p),
{
    let b2 = b.update(i, b[i].update(j, p));
    assert forall|r: int, c: int| #[trigger] owned(b, p, r, c) implies owned(b2, p, r, c) by {
        if r == i && c == j {
        }
    }
    lemma_wins_kept(b, b2, p);
}

/// A stone placed by another player never makes player `p` a winner:
/// after a move by `q`, only `q` can have newly won.
pub proof fn lemma_other_move_gives_no_win(b: Seq<Seq<u8>>, p: u8, q: u8, i: int, j: int)
    requires
        well_formed_board(b),
        p != q,
        0 <= i < b.len(),
        0 <= j < b[i].len(),
    ensures
        wins(b.update(i, b[i].update(j, q)), p) ==> wins(b, p),
{
    let b2 = b.update(i, b[i].update(j, q));
    assert forall|r: int, c: int| #[trigger] owned(b2, p, r, c) implies owned(b, p, r, c) by {
        if r == i && c == j {
        }
    }
    lemma_wins_kept(b2, b, p);
}


/// A board of `rows` rows of `cols` empty cells.
pub fn empty_board(rows: usize, cols: usize) -> (matrix: Vec<Vec<u8>>)
    ensures
        matrix@.len() == rows,
        forall|i: int| 0 <= i < rows ==> (#[trigger] matrix@[i])@ == Seq::new(cols as nat, |j: int| 0u8),
{
    let mut matrix: Vec<Vec<u8>> = Vec::new();
    let mut i: usize = 0;
    while i < rows
        invariant
            i <= rows,
            matrix@.len() == i,
            forall|r: int| 0 <= r < i ==> (#[trigger] matrix@[r])@ == Seq::new(cols as nat, |j: int| 0u8),
        decreases rows - i,
    {
        let row: Vec<u8> = vec![0; cols];
        proof {
            assert(row@ =~= Seq::new(cols as nat, |j: int| 0u8));
        }
        matrix.push(row);
        i += 1;
    }
    matrix
}


/// A board whose rows all have the same, nonzero, length.
pub open spec fn rectangular(b: Seq<Seq<u8>>) -> bool {
    &&& b.len() > 0
    &&& b[0].len() > 0
    &&& forall|i: int| 0 <= i < b.len() ==> #[trigger] b[i].len() == b[0].len()
}

/// The board with rows and columns exchanged.
pub open spec fn transpose(b: Seq<Seq<u8>>) -> Seq<Seq<u8>> {
    Seq::new(b[0].len(), |j: int| Seq::new(b.len(), |i: int| b[i][j]))
}

proof fn lemma_wins_transpose_one_way(b: Seq<Seq<u8>>, p: u8)
    requires
        rectangular(b),
    ensures
        wins(b, p) ==> wins(transpose(b), p),
{
    let t = transpose(b);
    assert(t[0].len() == b.len());
    if exists|i: int| 0 <= i < b.len() && line_win(#[trigger] row_line(b, p, i)) {
        let i = choose|i: int| 0 <= i < b.len() && line_win(#[trigger] row_line(b, p, i));
        assert(column_line(t, p, i) =~= row_line(b, p, i));
    } else if exists|j: int| 0 <= j < b[0].len() && line_win(#[trigger] column_line(b, p, j)) {
        let j = choose|j: int| 0 <= j < b[0].len() && line_win(#[trigger] column_line(b, p, j));
        assert(row_line(t, p, j) =~= column_line(b, p, j));
    } else if exists|i: int, j: int| #[trigger] diagonal_run(b, p, i, j) {
        let (i, j) = choose|i: int, j: int| #[trigger] diagonal_run(b, p, i, j);
        assert forall|k: int| 0 <= k < 5 implies #[trigger] diagonal_cell(t, p, j, i, k) by {
            assert(diagonal_cell(b, p, i, j, k));
        }
        assert(diagonal_run(t, p, j, i));
    } else if exists|i: int, j: int| #[trigger] anti_diagonal_run(b, p, i, j) {
        let (i, j) = choose|i: int, j: int| #[trigger] anti_diagonal_run(b, p, i, j);
        assert forall|k: int| 0 <= k < 5 implies #[trigger] anti_diagonal_cell(t, p, j - 4, i + 4, k) by {
            assert(anti_diagonal_cell(b, p, i, j, 4 - k));
        }
        assert(anti_diagonal_run(t, p, j - 4, i + 4));
    }
}

/// The winner rule treats rows and columns alike: on a rectangular board, a
/// player has won exactly when that player has won on the board with rows
/// and columns exchanged.
pub proof fn lemma_wins_transpose(b: Seq<Seq<u8>>, p: u8)
    requires
        rectangular(b),
    ensures
        wins(b, p) == wins(transpose(b), p),
{
    let t = transpose(b);
    assert(rectangular(t));
    lemma_wins_transpose_one_way(b, p);
    lemma_wins_transpose_one_way(t, p);
    assert(transpose(t) =~= b) by {
        assert forall|i: int| 0 <= i < b.len() implies #[trigger] transpose(t)[i] =~= b[i] by {
        }
    }
}


/// What the server does at a player's turn.
#[derive(Debug, Clone, Copy, PartialEq, Eq, Structural)]
pub enum ServerStep {
    /// Send `Init` and the initial map, then read the player's move.
    SendInit,
    /// Send `Update` and the latest moves, then read the player's move.
    SendUpdate,
    /// Stop the rounds and tell every player the outcome.
    Finish,
}

/// The server's decision at a player's turn in round `round` (counted from
/// 0) when the winner so far is `winner` (-1 for none): finish once someone
/// has won; otherwise send the initial map in the first round and updates
/// in every later one.
pub fn next_server_step(round: usize, winner: i32) -> (step: ServerStep)
    ensures
        step == (if winner != -1 {
            ServerStep::Finish
        } else if round == 0 {
            ServerStep::SendInit
        } else {
            ServerStep::SendUpdate
        }),
{
    if winner != -1 {
        ServerStep::Finish
    } else if round == 0 {
        ServerStep::SendInit
    } else {
        ServerStep::SendUpdate
    }
}


/// Cell (`r`, `c`) is on the board (row `r` below the number of rows,
/// column `c` below the first row's length) and holds `p`'s stone.
pub open spec fn stone_at(b: Seq<Seq<u8>>, p: u8, r: int, c: int) -> bool {
    0 <= r < b.len() && 0 <= c < b[0].len() && b[r][c] == p
}

/// `n` of `p`'s stones stand in a row from (`i`, `j`), each one step of
/// (`di`, `dj`) from the one before.
pub open spec fn stones_in_line(b: Seq<Seq<u8>>, p: u8, i: int, j: int, di: int, dj: int, n: int) -> bool {
    forall|k: int| 0 <= k < n ==> #[trigger] stone_at(b, p, i + k * di, j + k * dj)
}

/// Some row or column starts with four of `p`'s stones, or five of them
/// stand in a row across, down, or along either diagonal.
pub open spec fn has_winning_line(b: Seq<Seq<u8>>, p: u8) -> bool {
    ||| exists|i: int| #[trigger] stones_in_line(b, p, i, 0, 0, 1, 4)
    ||| exists|j: int| #[trigger] stones_in_line(b, p, 0, j, 1, 0, 4)
    ||| exists|i: int, j: int| #[trigger] stones_in_line(b, p, i, j, 0, 1, 5)
    ||| exists|i: int, j: int| #[trigger] stones_in_line(b, p, i, j, 1, 0, 5)
    ||| exists|i: int, j: int| #[trigger] stones_in_line(b, p, i, j, 1, 1, 5)
    ||| exists|i: int, j: int| #[trigger] stones_in_line(b, p, i, j, 1, -1, 5)
}

proof fn lemma_row_wins_iff(b: Seq<Seq<u8>>, p: u8, i: int)
    requires
        b.len() > 0,
        0 <= i < b.len(),
    ensures
        line_win(row_line(b, p, i)) <==> (stones_in_line(b, p, i, 0, 0, 1, 4) || exists|j: int|
            #[trigger] stones_in_line(b, p, i, j, 0, 1, 5)),
{
    let line = row_line(b, p, i);
    if marks_from(line, 0, 4) {
        assert forall|k: int| 0 <= k < 4 implies #[trigger] stone_at(b, p, i + k * 0, 0 + k * 1) by {
            assert(line[0 + k]);
        }
    }
    if exists|s: int| #[trigger] marks_from(line, s, 5) {
        let s = choose|s: int| #[trigger] marks_from(line, s, 5);
        assert forall|k: int| 0 <= k < 5 implies #[trigger] stone_at(b, p, i + k * 0, s + k * 1) by {
            assert(line[s + k]);
        }
        assert(stones_in_line(b, p, i, s, 0, 1, 5));
    }
    if stones_in_line(b, p, i, 0, 0, 1, 4) {
        assert(stone_at(b, p, i + 3 * 0, 0int + 3int * 1int));
        assert forall|k: int| 0 <= k < 4 implies #[trigger] line[0 + k] by {
            assert(stone_at(b, p, i + k * 0, 0 + k * 1));
        }
        assert(marks_from(line, 0, 4));
    }
    if exists|j: int| #[trigger] stones_in_line(b, p, i, j, 0, 1, 5) {
        let j = choose|j: int| #[trigger] stones_in_line(b, p, i, j, 0, 1, 5);
        assert(stone_at(b, p, i + 0 * 0, j + 0 * 1));
        assert(stone_at(b, p, i + 4 * 0, j + 4 * 1));
        assert forall|k: int| 0 <= k < 5 implies #[trigger] line[j + k] by {
            assert(stone_at(b, p, i + k * 0, j + k * 1));
        }
        assert(marks_from(line, j, 5));
    }
}

proof fn lemma_column_wins_iff(b: Seq<Seq<u8>>, p: u8, j: int)
    requires
        b.len() > 0,
        0 <= j < b[0].len(),
    ensures
        line_win(column_line(b, p, j)) <==> (stones_in_line(b, p, 0, j, 1, 0, 4) || exists|i: int|
            #[trigger] stones_in_line(b, p, i, j, 1, 0, 5)),
{
    let line = column_line(b, p, j);
    if marks_from(line, 0, 4) {
        assert forall|k: int| 0 <= k < 4 implies #[trigger] stone_at(b, p, 0 + k * 1, j + k * 0) by {
            assert(line[0 + k]);
        }
    }
    if exists|s: int| #[trigger] marks_from(line, s, 5) {
        let s = choose|s: int| #[trigger] marks_from(line, s, 5);
        assert forall|k: int| 0 <= k < 5 implies #[trigger] stone_at(b, p, s + k * 1, j + k * 0) by {
            assert(line[s + k]);
        }
        assert(stones_in_line(b, p, s, j, 1, 0, 5));
    }
    if stones_in_line(b, p, 0, j, 1, 0, 4) {
        assert(stone_at(b, p, 0int + 3int * 1int, j + 3 * 0));
        assert forall|k: int| 0 <= k < 4 implies #[trigger] line[0 + k] by {
            assert(stone_at(b, p, 0 + k * 1, j + k * 0));
        }
        assert(marks_from(line, 0, 4));
    }
    if exists|i: int| #[trigger] stones_in_line(b, p, i, j, 1, 0, 5) {
        let i = choose|i: int| #[trigger] stones_in_line(b, p, i, j, 1, 0, 5);
        assert(stone_at(b, p, i + 0 * 1, j + 0 * 0));
        assert(stone_at(b, p, i + 4 * 1, j + 4 * 0));
        assert forall|k: int| 0 <= k < 5 implies #[trigger] line[i + k] by {
            assert(stone_at(b, p, i + k * 1, j + k * 0));
        }
        assert(marks_from(line, i, 5));
    }
}

proof fn lemma_diagonals_iff(b: Seq<Seq<u8>>, p: u8, i: int, j: int)
    ensures
        diagonal_run(b, p, i, j) <==> stones_in_line(b, p, i, j, 1, 1, 5),
        anti_diagonal_run(b, p, i, j) <==> stones_in_line(b, p, i, j, 1, -1, 5),
{
    if diagonal_run(b, p, i, j) {
        assert forall|k: int| 0 <= k < 5 implies #[trigger] stone_at(b, p, i + k * 1, j + k * 1) by {
            assert(diagonal_cell(b, p, i, j, k));
        }
    }
    if stones_in_line(b, p, i, j, 1, 1, 5) {
        assert forall|k: int| 0 <= k < 5 implies #[trigger] diagonal_cell(b, p, i, j, k) by {
            assert(stone_at(b, p, i + k * 1, j + k * 1));
        }
    }
    if anti_diagonal_run(b, p, i, j) {
        assert forall|k: int| 0 <= k < 5 implies #[trigger] stone_at(b, p, i + k * 1, j + k * -1) by {
            assert(anti_diagonal_cell(b, p, i, j, k));
        }
    }
    if stones_in_line(b, p, i, j, 1, -1, 5) {
        assert forall|k: int| 0 <= k < 5 implies #[trigger] anti_diagonal_cell(b, p, i, j, k) by {
            assert(stone_at(b, p, i + k * 1, j + k * -1));
        }
    }
}

/// A player has won exactly when some row or column starts with four of
/// the player's stones, or five of them stand in a row across, down, or
/// along either diagonal, wherever on the board that is.
pub proof fn lemma_wins_iff_winning_line(b: Seq<Seq<u8>>, p: u8)
    requires
        b.len() > 0,
    ensures
        wins(b, p) == has_winning_line(b, p),
{
    if exists|i: int| 0 <= i < b.len() && line_win(#[trigger] row_line(b, p, i)) {
        let i = choose|i: int| 0 <= i < b.len() && line_win(#[trigger] row_line(b, p, i));
        lemma_row_wins_iff(b, p, i);
    }
    if exists|j: int| 0 <= j < b[0].len() && line_win(#[trigger] column_line(b, p, j)) {
        let j = choose|j: int| 0 <= j < b[0].len() && line_win(#[trigger] column_line(b, p, j));
        lemma_column_wins_iff(b, p, j);
    }
    if exists|i: int, j: int| #[trigger] diagonal_run(b, p, i, j) {
        let (i, j) = choose|i: int, j: int| #[trigger] diagonal_run(b, p, i, j);
        lemma_diagonals_iff(b, p, i, j);
    }
    if exists|i: int, j: int| #[trigger] anti_diagonal_run(b, p, i, j) {
        let (i, j) = choose|i: int, j: int| #[trigger] anti_diagonal_run(b, p, i, j);
        lemma_diagonals_iff(b, p, i, j);
    }
    if exists|i: int| #[trigger] stones_in_line(b, p, i, 0, 0, 1, 4) {
        let i = choose|i: int| #[trigger] stones_in_line(b, p, i, 0, 0, 1, 4);
        assert(stone_at(b, p, i + 0 * 0, 0int + 0int * 1int));
        lemma_row_wins_iff(b, p, i);
    }
    if exists|i: int, j: int| #[trigger] stones_in_line(b, p, i, j, 0, 1, 5) {
        let (i, j) = choose|i: int, j: int| #[trigger] stones_in_line(b, p, i, j, 0, 1, 5);
        assert(stone_at(b, p, i + 0 * 0, j + 0 * 1));
        lemma_row_wins_iff(b, p, i);
    }
    if exists|j: int| #[trigger] stones_in_line(b, p, 0, j, 1, 0, 4) {
        let j = choose|j: int| #[trigger] stones_in_line(b, p, 0, j, 1, 0, 4);
        assert(stone_at(b, p, 0int + 0int * 1int, j + 0 * 0));
        lemma_column_wins_iff(b, p, j);
    }
    if exists|i: int, j: int| #[trigger] stones_in_line(b, p, i, j, 1, 0, 5) {
        let (i, j) = choose|i: int, j: int| #[trigger] stones_in_line(b, p, i, j, 1, 0, 5);
        assert(stone_at(b, p, i + 0 * 1, j + 0 * 0));
        lemma_column_wins_iff(b, p, j);
    }
    if exists|i: int, j: int| #[trigger] stones_in_line(b, p, i, j, 1, 1, 5) {
        let (i, j) = choose|i: int, j: int| #[trigger] stones_in_line(b, p, i, j, 1, 1, 5);
        lemma_diagonals_iff(b, p, i, j);
    }
    if exists|i: int, j: int| #[trigger] stones_in_line(b, p, i, j, 1, -1, 5) {
        let (i, j) = choose|i: int, j: int| #[trigger] stones_in_line(b, p, i, j, 1, -1, 5);
        lemma_diagonals_iff(b, p, i, j);
    }
}

/// Five of a player's stones along a down-right diagonal make that player
/// a winner wherever they stand on the board.
pub proof fn lemma_diagonal_five_wins(b: Seq<Seq<u8>>, p: u8, i: int, j: int)
    requires
        b.len() > 0,
        forall|k: int| 0 <= k < 5 ==> 0 <= i + k < b.len() && 0 <= j + k < b[0].len() && #[trigger] b[i + k][j + k] == p,
    ensures
        wins(b, p),
{
    assert forall|k: int| 0 <= k < 5 implies #[trigger] stone_at(b, p, i + k * 1, j + k * 1) by {
        assert(b[i + k][j + k] == p);
    }
    assert(stones_in_line(b, p, i, j, 1, 1, 5));
    lemma_wins_iff_winning_line(b, p);
}

/// Five of a player's stones along a down-left diagonal make that player a
/// winner wherever they stand on the board.
pub proof fn lemma_anti_diagonal_five_wins(b: Seq<Seq<u8>>, p: u8, i: int, j: int)
    requires
        b.len() > 0,
        forall|k: int| 0 <= k < 5 ==> 0 <= i + k < b.len() && 0 <= j - k < b[0].len() && #[trigger] b[i + k][j - k] == p,
    ensures
        wins(b, p),
{
    assert forall|k: int| 0 <= k < 5 implies #[trigger] stone_at(b, p, i + k * 1, j + k * -1) by {
        assert(b[i + k][j - k] == p);
    }
    assert(stones_in_line(b, p, i, j, 1, -1, 5));
    lemma_wins_iff_winning_line(b, p);
}

} // verus!

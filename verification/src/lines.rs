//! Runs of one player's stones along a line of the board, the rule by
//! which a running count over a line detects four at the line's start or
//! five anywhere, and row-major positions in a grid.

use vstd::prelude::*;

verus! {

/// `n` marked cells of `line` in a row, starting at index `s`.
pub open spec fn marks_from(line: Seq<bool>, s: int, n: int) -> bool {
    &&& 0 <= s
    &&& s + n <= line.len()
    &&& forall|k: int| 0 <= k < n ==> #[trigger] line[s + k]
}

/// A line wins when its first four cells are marked, or when five
/// consecutive cells anywhere on it are marked.
pub open spec fn line_win(line: Seq<bool>) -> bool {
    ||| marks_from(line, 0, 4)
    ||| exists|s: int| #[trigger] marks_from(line, s, 5)
}

/// The count kept while scanning a line: reset to 0 where a run of marks
/// starts after column 0, raised by one on every other marked cell, kept on
/// unmarked cells.
pub open spec fn next_count(line: Seq<bool>, j: int, count: int) -> int {
    if j > 0 && line[j] && !line[j - 1] {
        0
    } else if line[j] {
        count + 1
    } else {
        count
    }
}

/// What the count says after the first `j` cells of `line`: below four,
/// and, when cell `j - 1` is marked, the length of the run ending there
/// (one less when the run does not start at index 0, whose first cell is
/// then marked and preceded by an unmarked one).
pub open spec fn count_state(line: Seq<bool>, j: int, count: int) -> bool {
    &&& 0 <= count < 4
    &&& (j == 0 ==> count == 0)
    &&& (j > 0 && line[j - 1]) ==> {
        &&& marks_from(line, j - count, count)
        &&& (j == count || (j - count - 1 > 0 && line[j - count - 1] && !line[j - count - 2]))
    }
}

/// No winning stretch of `line` lies within its first `j` cells.
pub open spec fn no_win_before(line: Seq<bool>, j: int) -> bool {
    &&& (j >= 4 ==> !marks_from(line, 0, 4))
    &&& forall|s: int| 0 <= s && s + 5 <= j ==> !#[trigger] marks_from(line, s, 5)
}

/// One step of the scan: the new count reaches four exactly when a winning
/// stretch ends at cell `j`, and otherwise the scan's state carries over.
pub proof fn lemma_count_step(line: Seq<bool>, j: int, count: int)
    requires
        0 <= j < line.len(),
        count_state(line, j, count),
        no_win_before(line, j),
    ensures
        next_count(line, j, count) >= 4 ==> line_win(line),
        next_count(line, j, count) < 4 ==> {
            &&& count_state(line, j + 1, next_count(line, j, count))
            &&& no_win_before(line, j + 1)
        },
{
    let c2 = next_count(line, j, count);
    if !line[j] {
        assert forall|s: int| 0 <= s && s + 5 <= j + 1 implies !#[trigger] marks_from(line, s, 5) by {
            if s + 5 == j + 1 {
                assert(!line[s + 4]);
            }
        }
        if j + 1 >= 4 && j < 4 {
            assert(!line[0 + j]);
        }
    } else if j > 0 && !line[j - 1] {
        assert(marks_from(line, j + 1, 0));
        assert forall|s: int| 0 <= s && s + 5 <= j + 1 implies !#[trigger] marks_from(line, s, 5) by {
            if s + 5 == j + 1 {
                assert(!line[s + 3]);
            }
        }
        if j + 1 >= 4 && j < 4 {
            assert(!line[0 + (j - 1)]);
        }
    } else if j == 0 {
        assert(line[0int + 0int]);
        assert(marks_from(line, 0, 1));
    } else {
        // the cell before `j` is marked: the run grows by one
        assert(marks_from(line, j - count, count + 1)) by {
            assert forall|k: int| 0 <= k < count + 1 implies #[trigger] line[j - count + k] by {
                if k < count {
                    assert(line[(j - count) + k]);
                }
            }
        }
        if c2 >= 4 {
            if j == count {
                assert(marks_from(line, 0, 4)) by {
                    assert forall|k: int| 0 <= k < 4 implies #[trigger] line[0 + k] by {
                        assert(line[(j - count) + k]);
                    }
                }
            } else {
                let s = j - count - 1;
                assert(marks_from(line, s, 5)) by {
                    assert forall|k: int| 0 <= k < 5 implies #[trigger] line[s + k] by {
                        if k > 0 {
                            assert(line[(j - count) + (k - 1)]);
                        }
                    }
                }
            }
        } else {
            assert forall|s: int| 0 <= s && s + 5 <= j + 1 implies !#[trigger] marks_from(line, s, 5) by {
                if s + 5 == j + 1 {
                    if j == count {
                    } else {
                        assert(!line[s + (j - count - 2 - s)]);
                    }
                }
            }
            if j + 1 >= 4 && j < 4 {
                if j != count {
                    assert(!line[0 + (j - count - 2)]);
                }
            }
        }
    }
}

/// A scan that ends with no winning stretch found saw a line that does
/// not win.
pub proof fn lemma_no_win(line: Seq<bool>)
    requires
        no_win_before(line, line.len() as int),
    ensures
        !line_win(line),
{
    if line.len() < 4 {
        assert(!marks_from(line, 0, 4));
    }
    assert forall|s: int| !#[trigger] marks_from(line, s, 5) by {
        if 0 <= s && s + 5 <= line.len() {
        }
    }
}


/// Marking more cells of a line never undoes a win.
pub proof fn lemma_line_win_monotone(l1: Seq<bool>, l2: Seq<bool>)
    requires
        l1.len() == l2.len(),
        forall|k: int| 0 <= k < l1.len() && #[trigger] l1[k] ==> l2[k],
    ensures
        line_win(l1) ==> line_win(l2),
{
    if marks_from(l1, 0, 4) {
        assert forall|k: int| 0 <= k < 4 implies #[trigger] l2[0 + k] by {
            assert(l1[0 + k]);
        }
        assert(marks_from(l2, 0, 4));
    } else if line_win(l1) {
        let s = choose|s: int| #[trigger] marks_from(l1, s, 5);
        assert forall|k: int| 0 <= k < 5 implies #[trigger] l2[s + k] by {
            assert(l1[s + k]);
        }
        assert(marks_from(l2, s, 5));
    }
}

/// Position `(i, j)` of a `w`-wide grid lies in row-major order before the
/// whole of any later row, inside a grid of `h` rows.
pub proof fn lemma_row_major(i: int, j: int, w: int, h: int)
    requires
        0 <= i < h,
        0 <= j < w,
    ensures
        0 <= i * w + j < h * w,
        i * w + j < (i + 1) * w,
        (i + 1) * w <= h * w,
{
    assert(0 <= i * w) by (nonlinear_arith)
        requires
            0 <= i,
            0 <= w,
    ;
    assert((i + 1) * w == i * w + w) by (nonlinear_arith);
    assert((i + 1) * w <= h * w) by (nonlinear_arith)
        requires
            i + 1 <= h,
            0 <= w,
    ;
}

/// In row-major order over a `w`-wide grid, position `(i1, j1)` comes
/// before the start of any later row `i2`.
pub proof fn lemma_row_major_before(i1: int, j1: int, i2: int, w: int)
    requires
        0 <= i1 < i2,
        0 <= j1 < w,
    ensures
        i1 * w + j1 < i2 * w,
{
    assert(i1 * w + j1 < i2 * w) by (nonlinear_arith)
        requires
            0 <= i1 < i2,
            0 <= j1 < w,
    ;
}

} // verus!

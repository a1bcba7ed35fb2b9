//! Size and membership laws of the generated board.

use vstd::prelude::*;
use crate::board::{board_seq, row_seq, rows_seq};
use crate::geom;

verus! {

/// Membership in a concatenation is membership in either part.
pub proof fn lemma_add_contains<A>(s1: Seq<A>, s2: Seq<A>, x: A)
    ensures
        (s1 + s2).contains(x) <==> s1.contains(x) || s2.contains(x),
{
    if s1.contains(x) {
        let i = choose|i: int| 0 <= i < s1.len() && s1[i] == x;
        assert((s1 + s2)[i] == x);
    }
    if s2.contains(x) {
        let i = choose|i: int| 0 <= i < s2.len() && s2[i] == x;
        assert((s1 + s2)[s1.len() + i] == x);
    }
    if (s1 + s2).contains(x) {
        let i = choose|i: int| 0 <= i < (s1 + s2).len() && (s1 + s2)[i] == x;
        if i < s1.len() {
            assert(s1[i] == x);
        } else {
            assert(s2[i - s1.len()] == x);
        }
    }
}

/// How many cells row `q` holds from coordinate `r` upward: the size of
/// the interval `[max(r, 1 - side - q), min(side - 1, side - 1 - q)]`.
pub open spec fn row_count(side: int, q: int, r: int) -> int {
    let hi = if q >= 0 {
        side - 1 - q
    } else {
        side - 1
    };
    let lo = if r >= 1 - side - q {
        r
    } else {
        1 - side - q
    };
    if hi < lo {
        0
    } else {
        hi - lo + 1
    }
}

/// The row sequence has exactly `row_count` cells.
pub proof fn lemma_row_seq_len(side: int, q: int, r: int)
    requires
        side >= 1,
        r <= side,
    ensures
        row_seq(side, q, r).len() == row_count(side, q, r),
    decreases side - r,
{
    geom::lemma_q_bounds(side);
    if r < side {
        lemma_row_seq_len(side, q, r + 1);
    }
}

/// A full row of the board holds `2 * side - 1 - |q|` cells.
pub proof fn lemma_full_row_len(side: int, q: int)
    requires
        side >= 1,
        1 - side <= q <= side - 1,
    ensures
        row_seq(side, q, 1 - side).len() == if q >= 0 {
            2 * side - 1 - q
        } else {
            2 * side - 1 + q
        },
{
    lemma_row_seq_len(side, q, 1 - side);
}

/// Twice the number of cells in all rows from `q` upward, in closed form.
pub open spec fn twice_rows_count(side: int, q: int) -> int {
    if q >= 0 {
        2 * (side - q) * (2 * side - 1) - (side - 1) * side + q * (q - 1)
    } else {
        (3 * side * side - side) + 2 * (-q) * (2 * side - 1) - (-q) * ((-q) + 1)
    }
}

/// The rows from `q` upward hold `twice_rows_count / 2` cells.
pub proof fn lemma_rows_seq_len(side: int, q: int)
    requires
        side >= 1,
        1 - side <= q <= side,
    ensures
        2 * rows_seq(side, q).len() == twice_rows_count(side, q),
    decreases side - q,
{
    geom::lemma_q_bounds(side);
    if q < side {
        lemma_full_row_len(side, q);
        lemma_rows_seq_len(side, q + 1);
        let row: int = if q >= 0 {
            2 * side - 1 - q
        } else {
            2 * side - 1 + q
        };
        assert(rows_seq(side, q).len() == row + rows_seq(side, q + 1).len());
        assert(2 * row + twice_rows_count(side, q + 1) == twice_rows_count(side, q))
            by (nonlinear_arith)
            requires
                side >= 1,
                1 - side <= q < side,
                row == if q >= 0 {
                    2 * side - 1 - q
                } else {
                    2 * side - 1 + q
                },
        ;
    } else {
        assert(twice_rows_count(side, side) == 0) by (nonlinear_arith)
            requires
                side >= 1,
        ;
    }
}

/// The board of side length `s` holds exactly `3 s^2 - 3 s + 1` cells,
/// the centered hexagonal number.
pub proof fn lemma_board_len(side: int)
    requires
        side >= 1,
    ensures
        board_seq(side).len() == 3 * side * side - 3 * side + 1,
{
    geom::lemma_q_bounds(side);
    lemma_rows_seq_len(side, 1 - side);
    assert(twice_rows_count(side, 1 - side) == 2 * (3 * side * side - 3 * side + 1))
        by (nonlinear_arith)
        requires
            side >= 1,
    ;
}

/// The cells of row `q` from coordinate `r` upward are exactly the pairs
/// `(q, r')` with `r'` in range and the coordinate sum inside the board.
pub proof fn lemma_row_seq_mem(side: int, q: int, r: int, c: (int, int))
    requires
        side >= 1,
    ensures
        row_seq(side, q, r).contains(c) <==> {
            &&& c.0 == q
            &&& r <= c.1 < side
            &&& -side < q + c.1 < side
        },
    decreases side - r,
{
    geom::lemma_q_bounds(side);
    if r < side {
        lemma_row_seq_mem(side, q, r + 1, c);
        if -side < q + r && q + r < side {
            lemma_add_contains(seq![(q, r)], row_seq(side, q, r + 1), c);
            if seq![(q, r)].contains(c) {
                let i = choose|i: int| 0 <= i < 1 && seq![(q, r)][i] == c;
                assert(c == (q, r));
            }
            if c == (q, r) {
                assert(seq![(q, r)][0] == c);
            }
        }
    }
}

/// The rows from `q` upward hold exactly the board cells whose first
/// coordinate is at least `q`.
pub proof fn lemma_rows_seq_mem(side: int, q: int, c: (int, int))
    requires
        side >= 1,
    ensures
        rows_seq(side, q).contains(c) <==> {
            &&& q <= c.0 < side
            &&& 1 - side <= c.1 < side
            &&& -side < c.0 + c.1 < side
        },
    decreases side - q,
{
    geom::lemma_q_bounds(side);
    if q < side {
        lemma_add_contains(row_seq(side, q, 1 - side), rows_seq(side, q + 1), c);
        lemma_row_seq_mem(side, q, 1 - side, c);
        lemma_rows_seq_mem(side, q + 1, c);
    }
}

/// Strict lexicographic order on coordinate pairs, the order in which the
/// board is generated.
pub open spec fn lex_lt(a: (int, int), b: (int, int)) -> bool {
    a.0 < b.0 || (a.0 == b.0 && a.1 < b.1)
}

/// Within one row the generated cells keep the row coordinate and rise
/// strictly in the second coordinate.
pub proof fn lemma_row_seq_sorted(side: int, q: int, r: int)
    requires
        side >= 1,
    ensures
        forall|i: int|
            0 <= i < row_seq(side, q, r).len() ==> (#[trigger] row_seq(side, q, r)[i].0 == q && r
                <= row_seq(side, q, r)[i].1),
        forall|i: int, j: int|
            0 <= i < j < row_seq(side, q, r).len() ==> #[trigger] row_seq(side, q, r)[i].1
                < #[trigger] row_seq(side, q, r)[j].1,
    decreases side - r,
{
    geom::lemma_q_bounds(side);
    if r < side {
        lemma_row_seq_sorted(side, q, r + 1);
        if -side < q + r && q + r < side {
            assert forall|i: int| 0 <= i < row_seq(side, q, r).len() implies (#[trigger] row_seq(
                side,
                q,
                r,
            )[i].0 == q && r <= row_seq(side, q, r)[i].1) by {
                if i == 0 {
                    assert(row_seq(side, q, r)[0] == (q, r));
                } else {
                    assert(row_seq(side, q, r)[i] == row_seq(side, q, r + 1)[i - 1]);
                    assert(row_seq(side, q, r + 1)[i - 1].0 == q);
                }
            }
            assert forall|i: int, j: int| 0 <= i < j < row_seq(side, q, r).len() implies
                #[trigger] row_seq(side, q, r)[i].1 < #[trigger] row_seq(side, q, r)[j].1 by {
                assert(row_seq(side, q, r)[j] == row_seq(side, q, r + 1)[j - 1]);
                assert(row_seq(side, q, r + 1)[j - 1].0 == q);
                if i == 0 {
                    assert(row_seq(side, q, r)[0] == (q, r));
                } else {
                    assert(row_seq(side, q, r)[i] == row_seq(side, q, r + 1)[i - 1]);
                    assert(row_seq(side, q, r + 1)[i - 1].1 < row_seq(side, q, r + 1)[j - 1].1);
                }
            }
        } else {
            assert forall|i: int| 0 <= i < row_seq(side, q, r).len() implies (#[trigger] row_seq(
                side,
                q,
                r,
            )[i].0 == q && r <= row_seq(side, q, r)[i].1) by {
                assert(row_seq(side, q, r)[i] == row_seq(side, q, r + 1)[i]);
                assert(row_seq(side, q, r + 1)[i].0 == q);
            }
            assert forall|i: int, j: int| 0 <= i < j < row_seq(side, q, r).len() implies
                #[trigger] row_seq(side, q, r)[i].1 < #[trigger] row_seq(side, q, r)[j].1 by {
                assert(row_seq(side, q, r)[i] == row_seq(side, q, r + 1)[i]);
                assert(row_seq(side, q, r)[j] == row_seq(side, q, r + 1)[j]);
                assert(row_seq(side, q, r + 1)[i].1 < row_seq(side, q, r + 1)[j].1);
            }
        }
    }
}

/// Across rows the generated cells rise strictly in lexicographic order.
pub proof fn lemma_rows_seq_sorted(side: int, q: int)
    requires
        side >= 1,
    ensures
        forall|i: int|
            0 <= i < rows_seq(side, q).len() ==> #[trigger] rows_seq(side, q)[i].0 >= q,
        forall|i: int, j: int|
            0 <= i < j < rows_seq(side, q).len() ==> lex_lt(
                #[trigger] rows_seq(side, q)[i],
                #[trigger] rows_seq(side, q)[j],
            ),
    decreases side - q,
{
    geom::lemma_q_bounds(side);
    if q < side {
        lemma_row_seq_sorted(side, q, 1 - side);
        lemma_rows_seq_sorted(side, q + 1);
        let s = rows_seq(side, q);
        let row = row_seq(side, q, 1 - side);
        let rest = rows_seq(side, q + 1);
        assert forall|i: int| 0 <= i < s.len() implies #[trigger] s[i].0 >= q by {
            if i < row.len() {
                assert(s[i] == row[i]);
            } else {
                assert(s[i] == rest[i - row.len()]);
            }
        }
        assert forall|i: int, j: int| 0 <= i < j < s.len() implies lex_lt(
            #[trigger] s[i],
            #[trigger] s[j],
        ) by {
            if j < row.len() {
                assert(s[i] == row[i]);
                assert(s[j] == row[j]);
            } else if i < row.len() {
                assert(s[i] == row[i]);
                assert(s[j] == rest[j - row.len()]);
            } else {
                assert(s[i] == rest[i - row.len()]);
                assert(s[j] == rest[j - row.len()]);
            }
        }
    }
}

/// The generated board never repeats a coordinate: its cells rise in
/// strict lexicographic order, so any two positions differ.
pub proof fn lemma_board_distinct(side: int)
    requires
        side >= 1,
    ensures
        forall|i: int, j: int|
            0 <= i < j < board_seq(side).len() ==> #[trigger] board_seq(side)[i]
                != #[trigger] board_seq(side)[j],
{
    geom::lemma_q_bounds(side);
    lemma_rows_seq_sorted(side, 1 - side);
}

/// A coordinate appears in the generated board exactly when it satisfies
/// the hexagon membership predicate: every generated cell lies on the
/// board, and no board cell is missing.
pub proof fn lemma_board_membership(side: int, c: (int, int))
    requires
        side >= 1,
    ensures
        board_seq(side).contains(c) <==> geom::in_hex_board(c.0, c.1, side),
{
    geom::lemma_q_bounds(side);
    lemma_rows_seq_mem(side, 1 - side, c);
}

} // verus!

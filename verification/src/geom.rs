//! Pure coordinate transforms for a pointy-top axial hex layout.
//!
//! Lattice frame: pixel x = `a * ux`, pixel y = `b * uy`, where
//! `ux = tile_size * cos(30 deg)` and `uy = tile_size * sin(30 deg)`.
//! `a` and `b` are the integer (or fixed-point) lattice coordinates used
//! throughout this module. In this frame the center of the tile at axial
//! `(q, r)` is `(2q + r, 3r)`, exactly.

use vstd::prelude::*;

verus! {

/// Number of cells along the board's widest row: `2 * side - 1`.
pub open spec fn board_size(side: int) -> int {
    2 * side - 1
}

/// Largest axial coordinate (exclusive bound): `ceil(board_size / 2)`.
pub open spec fn max_q(side: int) -> int {
    (board_size(side) + 1) / 2
}

/// Smallest axial coordinate (inclusive bound): `max_q - board_size`.
pub open spec fn min_q(side: int) -> int {
    max_q(side) - board_size(side)
}

/// Membership predicate for the hexagon-shaped board of the given side
/// length: both axes are range-limited and so is their sum (the implicit
/// third cube coordinate `s = -q - r`).
pub open spec fn in_hex_board(q: int, r: int, side: int) -> bool {
    &&& min_q(side) <= q < max_q(side)
    &&& min_q(side) <= r < max_q(side)
    &&& -max_q(side) < q + r < max_q(side)
}

/// For a positive side length the bounds simplify: `max_q == side` and
/// `min_q == 1 - side`.
pub proof fn lemma_q_bounds(side: int)
    requires
        side >= 1,
    ensures
        max_q(side) == side,
        min_q(side) == 1 - side,
{
}

/// Reports whether axial `(q, r)` lies on the hexagon-shaped board of the
/// given side length.
pub fn is_in_hex_board(q: i32, r: i32, side: i32) -> (res: bool)
    requires
        side >= 1,
    ensures
        res == in_hex_board(q as int, r as int, side as int),
{
    let qw = q as i64;
    let rw = r as i64;
    let sw = side as i64;
    proof {
        lemma_q_bounds(side as int);
    }
    1 - sw <= qw && qw < sw && 1 - sw <= rw && rw < sw && -sw < qw + rw && qw + rw < sw
}

/// Lattice x coordinate of the center of the tile at axial `(q, r)`.
pub open spec fn center_a(q: int, r: int) -> int {
    2 * q + r
}

/// Lattice y coordinate of the center of the tile at axial `(q, r)`.
pub open spec fn center_b(q: int, r: int) -> int {
    3 * r
}

/// Center of the tile at axial `(q, r)`, in lattice units: `(2q + r, 3r)`.
///
/// In pixels this is `x = (2q + r) * ux` and `y = 3r * uy`; with
/// `ux = t * cos(30)` and `uy = t * sin(30)` that equals the skewed basis
/// `x = 2 * q * t * cos(30) + r * t * cos(30)`,
/// `y = 2 * (r * t * cos(30)) * cos(30)`.
pub fn axial_to_center(q: i32, r: i32) -> (c: (i64, i64))
    ensures
        c.0 == center_a(q as int, r as int),
        c.1 == center_b(q as int, r as int),
{
    (2 * (q as i64) + (r as i64), 3 * (r as i64))
}

/// Lattice offsets of the six hexagon corners around a tile center, in
/// order of increasing angle: `30, 90, 150, 210, 270, 330` degrees.
/// Corner `i` sits at pixel offset
/// `(tile_size * cos(30 + 60 i), tile_size * sin(30 + 60 i))`, and each of
/// those offsets is an exact integer pair in lattice units.
pub open spec fn corner_offsets() -> Seq<(int, int)> {
    seq![(1, 1), (0, 2), (-1, 1), (-1, -1), (0, -2), (1, -1)]
}

/// The six corners of the hexagon centered at lattice `(a, b)`, corner `i`
/// at angle `30 + 60 i` degrees, winding in increasing angle.
pub fn hex_corners(a: i64, b: i64) -> (v: Vec<(i64, i64)>)
    requires
        -0x1000_0000_0000 <= a <= 0x1000_0000_0000,
        -0x1000_0000_0000 <= b <= 0x1000_0000_0000,
    ensures
        v@.len() == corner_offsets().len(),
        forall|i: int| 0 <= i < v@.len() ==> #[trigger] v@[i].0 == a + corner_offsets()[i].0,
        forall|i: int| 0 <= i < v@.len() ==> #[trigger] v@[i].1 == b + corner_offsets()[i].1,
{
    let v: Vec<(i64, i64)> = vec![
        (a + 1, b + 1),
        (a, b + 2),
        (a - 1, b + 1),
        (a - 1, b - 1),
        (a, b - 2),
        (a + 1, b - 1),
    ];
    proof {
        assert(v@.len() == corner_offsets().len());
        assert(forall|i: int| 0 <= i < v@.len() ==> #[trigger] v@[i].0 == a + corner_offsets()[i].0
            && v@[i].1 == b + corner_offsets()[i].1) by {
            assert(corner_offsets()[0] == (1int, 1int));
            assert(corner_offsets()[1] == (0int, 2int));
            assert(corner_offsets()[2] == (-1int, 1int));
            assert(corner_offsets()[3] == (-1int, -1int));
            assert(corner_offsets()[4] == (0int, -2int));
            assert(corner_offsets()[5] == (1int, -1int));
        }
    }
    v
}

/// Squared Euclidean length of a lattice offset, in quarter squared tile
/// sizes: a pixel offset `(da * ux, db * uy)` has squared length
/// `(3 da^2 + db^2) / 4 * tile_size^2`, since `ux^2 = (3/4) tile_size^2`
/// and `uy^2 = (1/4) tile_size^2`.
pub open spec fn offset_norm(p: (int, int)) -> int {
    3 * p.0 * p.0 + p.1 * p.1
}

/// Every corner offset has `offset_norm == 4`: each of the six corners
/// lies at Euclidean distance exactly `tile_size` from the tile center.
pub proof fn lemma_corner_distance()
    ensures
        corner_offsets().len() == 6,
        forall|i: int| 0 <= i < 6 ==> offset_norm(#[trigger] corner_offsets()[i]) == 4,
{
    assert forall|i: int| 0 <= i < 6 implies offset_norm(#[trigger] corner_offsets()[i]) == 4 by {
        let p = corner_offsets()[i];
        if i == 0 {
            assert(p == (1int, 1int));
        } else if i == 1 {
            assert(p == (0int, 2int));
        } else if i == 2 {
            assert(p == (-1int, 1int));
        } else if i == 3 {
            assert(p == (-1int, -1int));
        } else if i == 4 {
            assert(p == (0int, -2int));
        } else {
            assert(p == (1int, -1int));
        }
        assert(3 * p.0 * p.0 + p.1 * p.1 == 4) by (nonlinear_arith)
            requires
                (p.0 == 1 || p.0 == -1 || p.0 == 0) && (if p.0 == 0 {
                    p.1 == 2 || p.1 == -2
                } else {
                    p.1 == 1 || p.1 == -1
                }),
        ;
    }
}

/// Division rounded to the nearest integer, ties away from zero, the
/// rounding used when a pixel position is snapped to a cell.
pub open spec fn round_div(n: int, d: int) -> int
    recommends
        d >= 1,
{
    if n >= 0 {
        (2 * n + d) / (2 * d)
    } else {
        -((2 * -n + d) / (2 * d))
    }
}

/// Rounding an exact multiple of the divisor returns the multiplier.
pub proof fn lemma_round_div_exact(k: int, d: int)
    requires
        d >= 1,
    ensures
        round_div(k * d, d) == k,
{
    if k >= 0 {
        assert(k * d >= 0) by (nonlinear_arith)
            requires
                d >= 1,
                k >= 0,
        ;
        assert((2 * (k * d) + d) / (2 * d) == k) by (nonlinear_arith)
            requires
                d >= 1,
                k >= 0,
        {
            assert(2 * (k * d) + d == k * (2 * d) + d);
            assert(0 <= d < 2 * d);
        }
    } else {
        assert(k * d < 0) by (nonlinear_arith)
            requires
                d >= 1,
                k < 0,
        ;
        assert((2 * -(k * d) + d) / (2 * d) == -k) by (nonlinear_arith)
            requires
                d >= 1,
                k < 0,
        {
            assert(2 * -(k * d) + d == (-k) * (2 * d) + d);
            assert(0 <= d < 2 * d);
        }
    }
}

/// `round_div` is antisymmetric in its numerator.
pub proof fn lemma_round_div_neg(n: int, d: int)
    requires
        d >= 1,
    ensures
        round_div(-n, d) == -round_div(n, d),
{
    if n == 0 {
        vstd::arithmetic::div_mod::lemma_basic_div(d, 2 * d);
    }
}

/// A non-negative numerator rounds to a nearest integer: the rounded
/// multiple of the divisor is within half a divisor of the numerator.
proof fn lemma_round_div_nearest_nonneg(n: int, d: int)
    requires
        n >= 0,
        d >= 1,
    ensures
        2 * (n - round_div(n, d) * d) <= d,
        2 * (round_div(n, d) * d - n) <= d,
{
    let q = (2 * n + d) / (2 * d);
    vstd::arithmetic::div_mod::lemma_fundamental_div_mod(2 * n + d, 2 * d);
    vstd::arithmetic::div_mod::lemma_mod_bound(2 * n + d, 2 * d);
    assert(2 * (n - q * d) <= d && 2 * (q * d - n) <= d) by (nonlinear_arith)
        requires
            d >= 1,
            2 * n + d == 2 * d * q + (2 * n + d) % (2 * d),
            0 <= (2 * n + d) % (2 * d) < 2 * d,
    ;
}

/// The cell picked by `round_div` is a nearest one: the chosen multiple
/// of the divisor lies within half a divisor of the numerator, on either
/// side. This is the rounding that snaps a pixel position to the closest
/// cell on each axis.
pub proof fn lemma_round_div_nearest(n: int, d: int)
    requires
        d >= 1,
    ensures
        2 * (n - round_div(n, d) * d) <= d,
        2 * (round_div(n, d) * d - n) <= d,
{
    if n >= 0 {
        lemma_round_div_nearest_nonneg(n, d);
    } else {
        lemma_round_div_nearest_nonneg(-n, d);
        lemma_round_div_neg(-n, d);
        assert(round_div(n, d) * d == -(round_div(-n, d) * d)) by (nonlinear_arith)
            requires
                round_div(n, d) == -round_div(-n, d),
        ;
    }
}

/// Rounding never goes below a multiple that the numerator has reached.
pub proof fn lemma_round_div_at_least(n: int, d: int, k: int)
    requires
        d >= 1,
        k >= 0,
        n >= k * d,
    ensures
        round_div(n, d) >= k,
{
    lemma_round_div_exact(k, d);
    assert(n >= 0) by (nonlinear_arith)
        requires
            d >= 1,
            k >= 0,
            n >= k * d,
    ;
    vstd::arithmetic::div_mod::lemma_div_is_ordered(2 * (k * d) + d, 2 * n + d, 2 * d);
}

/// Lattice x coordinate of the cell picked for a click at lattice
/// `(a / scale, b / scale)`: undo the skew, then round each axis on its
/// own. The two divisors restate `r' = y / (2 cos 30)`, `q' = (x - r') / 2`
/// and the final division by `tile_size * cos 30` in lattice units.
pub open spec fn pixel_to_axial_q(a: int, b: int, scale: int) -> int {
    round_div(3 * a - b, 6 * scale)
}

/// Axial r coordinate of the cell picked for a click at lattice
/// `(a / scale, b / scale)`.
pub open spec fn pixel_to_axial_r(a: int, b: int, scale: int) -> int {
    round_div(b, 3 * scale)
}

/// Division of a non-negative numerator rounded to nearest, ties up.
fn rounded_div_nonneg(n: u64, d: u64) -> (res: u64)
    requires
        1 <= d <= 0x2000_0000_0000,
        n <= 0x2000_0000_0000,
    ensures
        res == round_div(n as int, d as int),
{
    (2 * n + d) / (2 * d)
}

/// Division rounded to nearest, ties away from zero.
fn rounded_div(n: i64, d: i64) -> (res: i64)
    requires
        1 <= d <= 0x2000_0000_0000,
        -0x2000_0000_0000 <= n <= 0x2000_0000_0000,
    ensures
        res == round_div(n as int, d as int),
{
    if n >= 0 {
        let q0 = rounded_div_nonneg(n as u64, d as u64);
        proof {
            vstd::arithmetic::div_mod::lemma_div_is_ordered_by_denominator(
                2 * (n as int) + d as int,
                1,
                2 * (d as int),
            );
        }
        q0 as i64
    } else {
        let q0 = rounded_div_nonneg((-n) as u64, d as u64);
        proof {
            vstd::arithmetic::div_mod::lemma_div_is_ordered_by_denominator(
                2 * (-n as int) + d as int,
                1,
                2 * (d as int),
            );
        }
        -(q0 as i64)
    }
}

/// Maps a pixel position, given as lattice coordinates times `scale`, to
/// the axial coordinate of the cell it is snapped to. The pixel at
/// `x = (a_num / scale) * ux`, `y = (b_num / scale) * uy` yields
/// `q = round((3 a - b) / 6)`, `r = round(b / 3)` for `a = a_num / scale`,
/// `b = b_num / scale`.
///
/// The two axes are rounded independently; this is not the nearest-hexagon
/// rounding that also corrects by the third cube coordinate, so very close
/// to a cell boundary the picked cell may differ from the geometrically
/// nearest one. The result is always some axial coordinate; whether it
/// lies on a board is a separate membership question.
pub fn pixel_to_axial(a_num: i64, b_num: i64, scale: i64) -> (qr: (i64, i64))
    requires
        1 <= scale <= 0x10_0000,
        -0x100_0000_0000 <= a_num <= 0x100_0000_0000,
        -0x100_0000_0000 <= b_num <= 0x100_0000_0000,
    ensures
        qr.0 == pixel_to_axial_q(a_num as int, b_num as int, scale as int),
        qr.1 == pixel_to_axial_r(a_num as int, b_num as int, scale as int),
{
    let q = rounded_div(3 * a_num - b_num, 6 * scale);
    let r = rounded_div(b_num, 3 * scale);
    (q, r)
}

/// Round trip at cell centers: for every cell of the board (indeed for
/// every axial coordinate), converting the cell's exact pixel center back
/// through `pixel_to_axial` returns the cell itself, at every positive
/// scale.
pub proof fn lemma_center_round_trip(q: int, r: int, side: int, scale: int)
    requires
        side >= 1,
        in_hex_board(q, r, side),
        scale >= 1,
    ensures
        pixel_to_axial_q(center_a(q, r) * scale, center_b(q, r) * scale, scale) == q,
        pixel_to_axial_r(center_a(q, r) * scale, center_b(q, r) * scale, scale) == r,
{
    assert(3 * (center_a(q, r) * scale) - center_b(q, r) * scale == q * (6 * scale))
        by (nonlinear_arith);
    assert(center_b(q, r) * scale == r * (3 * scale)) by (nonlinear_arith);
    lemma_round_div_exact(q, 6 * scale);
    lemma_round_div_exact(r, 3 * scale);
}

/// A click far outside the board misses it: once either rounded axis is
/// pushed to the board radius or beyond, the picked coordinate fails the
/// membership predicate, so the lookup reports no tile rather than a
/// fault.
pub proof fn lemma_far_click_misses(a: int, b: int, side: int, scale: int)
    requires
        side >= 1,
        scale >= 1,
        b >= 3 * side * scale || b <= -(3 * side * scale) || 3 * a - b >= 6 * side * scale || 3
            * a - b <= -(6 * side * scale),
    ensures
        !in_hex_board(pixel_to_axial_q(a, b, scale), pixel_to_axial_r(a, b, scale), side),
{
    lemma_q_bounds(side);
    if b >= 3 * side * scale {
        assert(b >= side * (3 * scale)) by (nonlinear_arith)
            requires
                b >= 3 * side * scale,
        ;
        lemma_round_div_at_least(b, 3 * scale, side);
    } else if b <= -(3 * side * scale) {
        assert(-b >= side * (3 * scale)) by (nonlinear_arith)
            requires
                b <= -(3 * side * scale),
        ;
        lemma_round_div_at_least(-b, 3 * scale, side);
        lemma_round_div_neg(b, 3 * scale);
    } else if 3 * a - b >= 6 * side * scale {
        assert(3 * a - b >= side * (6 * scale)) by (nonlinear_arith)
            requires
                3 * a - b >= 6 * side * scale,
        ;
        lemma_round_div_at_least(3 * a - b, 6 * scale, side);
    } else {
        assert(-(3 * a - b) >= side * (6 * scale)) by (nonlinear_arith)
            requires
                3 * a - b <= -(6 * side * scale),
        ;
        lemma_round_div_at_least(-(3 * a - b), 6 * scale, side);
        lemma_round_div_neg(3 * a - b, 6 * scale);
    }
}

} // verus!

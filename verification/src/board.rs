//! Tiles and the hexagon-shaped board that owns them.

use vstd::prelude::*;
use crate::geom;

verus! {

/// Reports whether an integer is odd. Parity drives the fill shade of a
/// tile.
pub fn is_odd(x: i32) -> (res: bool)
    ensures
        res == (x as int % 2 == 1),
{
    if x >= 0 {
        (x as u32) % 2 == 1
    } else {
        let m = (-(x as i64)) as u64;
        m % 2 == 1
    }
}

/// Reports whether an integer is even.
pub fn is_even(x: i32) -> (res: bool)
    ensures
        res == (x as int % 2 == 0),
{
    !is_odd(x)
}

/// Fill shade of the tile at axial `(q, r)`: a function of the parities
/// of `q` and `r` alone. Both-even cells get the darkest shade, both-odd
/// the lightest, mixed parity the middle one.
pub open spec fn fill_color_spec(q: int, r: int) -> Seq<char> {
    if q % 2 == 0 && r % 2 == 0 {
        "#111"@
    } else if q % 2 == 1 && r % 2 == 0 {
        "#222"@
    } else if q % 2 == 0 && r % 2 == 1 {
        "#222"@
    } else {
        "#333"@
    }
}

/// Cells whose coordinates agree in parity on both axes always receive
/// the same fill shade: the selection reads nothing but the two parities.
pub proof fn lemma_fill_color_parity(q1: int, r1: int, q2: int, r2: int)
    requires
        q1 % 2 == q2 % 2,
        r1 % 2 == r2 % 2,
    ensures
        fill_color_spec(q1, r1) == fill_color_spec(q2, r2),
{
}

/// One board cell, identified by its axial coordinate. Immutable once
/// created; all pixel geometry is recomputed from the coordinate on
/// demand.
#[derive(Clone, Copy, PartialEq, Eq, Structural)]
pub struct HexTile {
    pub q: i32,
    pub r: i32,
}

impl HexTile {
    /// The axial coordinate as a pair of mathematical integers.
    pub open spec fn coord(self) -> (int, int) {
        (self.q as int, self.r as int)
    }

    pub fn new(q: i32, r: i32) -> (t: HexTile)
        ensures
            t.coord() == (q as int, r as int),
    {
        HexTile { q, r }
    }

    /// Center of this tile in lattice units.
    pub fn coord_to_pos(&self) -> (c: (i64, i64))
        ensures
            c.0 == geom::center_a(self.q as int, self.r as int),
            c.1 == geom::center_b(self.q as int, self.r as int),
    {
        geom::axial_to_center(self.q, self.r)
    }

    /// The six outline corners of this tile in lattice units, in order of
    /// increasing angle starting at 30 degrees.
    pub fn corners(&self) -> (v: Vec<(i64, i64)>)
        ensures
            v@.len() == geom::corner_offsets().len(),
            forall|i: int|
                0 <= i < v@.len() ==> #[trigger] v@[i].0 == geom::center_a(
                    self.q as int,
                    self.r as int,
                ) + geom::corner_offsets()[i].0,
            forall|i: int|
                0 <= i < v@.len() ==> #[trigger] v@[i].1 == geom::center_b(
                    self.q as int,
                    self.r as int,
                ) + geom::corner_offsets()[i].1,
    {
        let (a, b) = self.coord_to_pos();
        geom::hex_corners(a, b)
    }

    /// The debug text drawn on this tile: both coordinates in decimal.
    pub fn label(&self) -> (s: String)
        ensures
            s@ == crate::label::label_spec(self.q as int, self.r as int),
    {
        crate::label::coord_label(self.q, self.r)
    }

    /// Fill color of this tile, selected by coordinate parity.
    pub fn fill_color(&self) -> (c: &'static str)
        ensures
            c@ == fill_color_spec(self.q as int, self.r as int),
    {
        if is_even(self.q) && is_even(self.r) {
            "#111"
        } else if is_odd(self.q) && is_even(self.r) {
            "#222"
        } else if is_even(self.q) && is_odd(self.r) {
            "#222"
        } else {
            "#333"
        }
    }
}

/// The cells of row `q` from coordinate `r` upward, in generation order:
/// every `(q, r')` with `r <= r' < max_q` whose coordinate sum passes the
/// board predicate (the row bounds themselves are enforced by the
/// enumeration range).
pub open spec fn row_seq(side: int, q: int, r: int) -> Seq<(int, int)>
    decreases geom::max_q(side) - r,
{
    if r < geom::max_q(side) {
        if -geom::max_q(side) < q + r && q + r < geom::max_q(side) {
            seq![(q, r)] + row_seq(side, q, r + 1)
        } else {
            row_seq(side, q, r + 1)
        }
    } else {
        Seq::empty()
    }
}

/// The cells of all rows from `q` upward, in generation order.
pub open spec fn rows_seq(side: int, q: int) -> Seq<(int, int)>
    decreases geom::max_q(side) - q,
{
    if q < geom::max_q(side) {
        row_seq(side, q, geom::min_q(side)) + rows_seq(side, q + 1)
    } else {
        Seq::empty()
    }
}

/// Every cell of the hexagon-shaped board with the given side length, in
/// generation order: `q` outer, `r` inner, both ascending.
pub open spec fn board_seq(side: int) -> Seq<(int, int)> {
    rows_seq(side, geom::min_q(side))
}

/// The coordinates of a sequence of tiles, in the same order.
pub open spec fn coords_of(tiles: Seq<HexTile>) -> Seq<(int, int)> {
    tiles.map(|i: int, t: HexTile| t.coord())
}

/// The board and the stub game state around it. The tile collection is
/// fixed at construction: every cell of the hexagon-shaped board of the
/// configured side length, in generation order, and nothing else.
pub struct Store {
    side: i32,
    game_over: bool,
    tiles: Vec<HexTile>,
}

impl Store {
    /// Configured side length.
    pub closed spec fn spec_side(self) -> int {
        self.side as int
    }

    /// The owned tiles, in generation order.
    pub closed spec fn spec_tiles(self) -> Seq<HexTile> {
        self.tiles@
    }

    /// Coordinates of the owned tiles, in generation order.
    pub open spec fn coords(self) -> Seq<(int, int)> {
        coords_of(self.spec_tiles())
    }

    pub closed spec fn spec_game_over(self) -> bool {
        self.game_over
    }

    /// Board invariant: the tile collection is exactly the hexagon-shaped
    /// board of the configured side length.
    pub open spec fn wf(self) -> bool {
        &&& 1 <= self.spec_side() <= 1000
        &&& self.coords() == board_seq(self.spec_side())
    }

    /// Builds the board for the given side length: enumerate every
    /// `(q, r)` with both axes in `[min_q, max_q)` and keep the pairs
    /// whose coordinate sum stays inside the hexagon.
    pub fn new(side: i32) -> (s: Store)
        requires
            1 <= side <= 1000,
        ensures
            s.wf(),
            s.spec_side() == side as int,
            !s.spec_game_over(),
            s.coords() == board_seq(side as int),
    {
        let ghost si: int = side as int;
        proof {
            geom::lemma_q_bounds(si);
        }
        let maxq: i32 = side;
        let minq: i32 = 1 - side;
        let mut tiles: Vec<HexTile> = Vec::new();
        let mut q: i32 = minq;
        while q < maxq
            invariant
                1 <= side <= 1000,
                si == side as int,
                maxq == side,
                minq == 1 - side,
                geom::max_q(si) == side as int,
                geom::min_q(si) == 1 - side as int,
                minq <= q <= maxq,
                coords_of(tiles@) + rows_seq(si, q as int) == board_seq(si),
            decreases maxq - q,
        {
            let mut r: i32 = minq;
            proof {
                assert(coords_of(tiles@) + row_seq(si, q as int, r as int) + rows_seq(
                    si,
                    q as int + 1,
                ) =~= coords_of(tiles@) + rows_seq(si, q as int));
            }
            while r < maxq
                invariant
                    1 <= side <= 1000,
                    si == side as int,
                    maxq == side,
                    minq == 1 - side,
                    geom::max_q(si) == side as int,
                    geom::min_q(si) == 1 - side as int,
                    minq <= q < maxq,
                    minq <= r <= maxq,
                    coords_of(tiles@) + row_seq(si, q as int, r as int) + rows_seq(
                        si,
                        q as int + 1,
                    ) == board_seq(si),
                decreases maxq - r,
            {
                let ghost pre = tiles@;
                if q + r < maxq && q + r > -maxq {
                    tiles.push(HexTile { q, r });
                    proof {
                        assert(coords_of(tiles@) =~= coords_of(pre) + seq![
                            (q as int, r as int),
                        ]);
                        assert(row_seq(si, q as int, r as int) == seq![(q as int, r as int)]
                            + row_seq(si, q as int, r as int + 1));
                        assert(coords_of(tiles@) + row_seq(si, q as int, r as int + 1) + rows_seq(
                            si,
                            q as int + 1,
                        ) =~= coords_of(pre) + row_seq(si, q as int, r as int) + rows_seq(
                            si,
                            q as int + 1,
                        ));
                    }
                } else {
                    proof {
                        assert(row_seq(si, q as int, r as int) == row_seq(
                            si,
                            q as int,
                            r as int + 1,
                        ));
                    }
                }
                r = r + 1;
            }
            proof {
                assert(row_seq(si, q as int, r as int) =~= Seq::<(int, int)>::empty());
                assert(coords_of(tiles@) + rows_seq(si, q as int + 1) =~= coords_of(tiles@)
                    + row_seq(si, q as int, r as int) + rows_seq(si, q as int + 1));
            }
            q = q + 1;
        }
        proof {
            assert(rows_seq(si, q as int) =~= Seq::<(int, int)>::empty());
            assert(coords_of(tiles@) =~= coords_of(tiles@) + rows_seq(si, q as int));
        }
        Store { side, game_over: false, tiles }
    }

    /// The tiles in generation order; finite, fully materialized, and
    /// re-iterable by the caller.
    pub fn tiles(&self) -> (v: &Vec<HexTile>)
        ensures
            v@ == self.spec_tiles(),
            coords_of(v@) == self.coords(),
    {
        &self.tiles
    }

    /// Number of tiles on the board: the centered hexagonal number of the
    /// configured side length.
    pub fn tile_count(&self) -> (n: usize)
        requires
            self.wf(),
        ensures
            n as int == 3 * self.spec_side() * self.spec_side() - 3 * self.spec_side() + 1,
    {
        proof {
            crate::counting::lemma_board_len(self.spec_side());
        }
        self.tiles.len()
    }

    /// Configured side length.
    pub fn side(&self) -> (s: i32)
        ensures
            s as int == self.spec_side(),
    {
        self.side
    }

    /// The stub game state: never set by any operation.
    pub fn game_over(&self) -> (g: bool)
        ensures
            g == self.spec_game_over(),
    {
        self.game_over
    }

    /// Looks a coordinate up in the tile set. Because the board is
    /// complete, the lookup answers exactly the hexagon membership
    /// predicate.
    pub fn contains(&self, q: i32, r: i32) -> (res: bool)
        requires
            self.wf(),
        ensures
            res == geom::in_hex_board(q as int, r as int, self.spec_side()),
    {
        let n = self.tiles.len();
        let mut i: usize = 0;
        while i < n
            invariant
                self.wf(),
                n == self.spec_tiles().len(),
                i <= n,
                forall|k: int| 0 <= k < i ==> #[trigger] self.coords()[k] != (q as int, r as int),
            decreases n - i,
        {
            let t = self.tiles[i];
            if t.q == q && t.r == r {
                proof {
                    assert(self.coords()[i as int] == (q as int, r as int));
                    assert(board_seq(self.spec_side()).contains((q as int, r as int)));
                    crate::counting::lemma_board_membership(
                        self.spec_side(),
                        (q as int, r as int),
                    );
                }
                return true;
            }
            proof {
                assert(self.coords()[i as int] == t.coord());
            }
            i = i + 1;
        }
        proof {
            crate::counting::lemma_board_membership(self.spec_side(), (q as int, r as int));
            if geom::in_hex_board(q as int, r as int, self.spec_side()) {
                let k = choose|k: int|
                    0 <= k < board_seq(self.spec_side()).len() && board_seq(self.spec_side())[k]
                        == (q as int, r as int);
                assert(self.coords()[k] == (q as int, r as int));
            }
        }
        false
    }

    /// Translates a recentered click to the tile it hits, if any. The
    /// click is given as lattice coordinates times `scale`, already
    /// shifted so that the board center is the origin. A miss is a valid,
    /// empty outcome, not an error.
    pub fn resolve_click(&self, a_num: i64, b_num: i64, scale: i64) -> (hit: Option<(i32, i32)>)
        requires
            self.wf(),
            1 <= scale <= 0x10_0000,
            -0x100_0000_0000 <= a_num <= 0x100_0000_0000,
            -0x100_0000_0000 <= b_num <= 0x100_0000_0000,
        ensures
            ({
                let qa = geom::pixel_to_axial_q(a_num as int, b_num as int, scale as int);
                let ra = geom::pixel_to_axial_r(a_num as int, b_num as int, scale as int);
                match hit {
                    Some(c) => geom::in_hex_board(qa, ra, self.spec_side()) && c.0 == qa && c.1
                        == ra,
                    None => !geom::in_hex_board(qa, ra, self.spec_side()),
                }
            }),
    {
        let (q64, r64) = geom::pixel_to_axial(a_num, b_num, scale);
        proof {
            geom::lemma_q_bounds(self.spec_side());
        }
        if -0x8000_0000 <= q64 && q64 <= 0x7fff_ffff && -0x8000_0000 <= r64 && r64
            <= 0x7fff_ffff {
            let q = q64 as i32;
            let r = r64 as i32;
            if self.contains(q, r) {
                Some((q, r))
            } else {
                None
            }
        } else {
            None
        }
    }

    /// Handles a click at a recentered position. The game rules are a
    /// stub with a single state: the click is resolved against the board,
    /// every click is accepted, and nothing changes.
    pub fn play(&mut self, a_num: i64, b_num: i64, scale: i64) -> (res: Result<(), ()>)
        requires
            old(self).wf(),
            1 <= scale <= 0x10_0000,
            -0x100_0000_0000 <= a_num <= 0x100_0000_0000,
            -0x100_0000_0000 <= b_num <= 0x100_0000_0000,
        ensures
            *final(self) == *old(self),
            res == Ok::<(), ()>(()),
    {
        let _hit = self.resolve_click(a_num, b_num, scale);
        Ok(())
    }
}

/// Number of cells along the board's widest row.
pub fn board_size_of(side: i32) -> (n: i32)
    requires
        1 <= side <= 1000,
    ensures
        n as int == geom::board_size(side as int),
{
    2 * side - 1
}

/// Half the board's pixel width, in lattice x units: the widest row spans
/// one unit width per cell on each side of the center.
pub fn half_board_width_units(side: i32) -> (n: i32)
    requires
        1 <= side <= 1000,
    ensures
        n as int == geom::board_size(side as int),
{
    2 * side - 1
}

/// The margin around the board, in lattice x units.
pub fn margin_units() -> (n: i32)
    ensures
        n == 1,
{
    1
}

/// Width and height of the drawing surface, in lattice x units: twice the
/// half board width plus a margin on each side.
pub fn surface_extent_units(side: i32) -> (n: i32)
    requires
        1 <= side <= 1000,
    ensures
        n as int == 2 * geom::board_size(side as int) + 2,
{
    4 * side
}

} // verus!

use hexboard::board::{board_size_of, half_board_width_units, margin_units, surface_extent_units};
use hexboard::board::{HexTile, Store};
use hexboard::geom::{axial_to_center, hex_corners, is_in_hex_board, pixel_to_axial};

/// x unit of the lattice: `tile_size * cos(30 deg)`.
fn unit_x(tile_size: f64) -> f64 {
    tile_size * (std::f64::consts::PI / 6.0).cos()
}

/// y unit of the lattice: `tile_size * sin(30 deg)`.
fn unit_y(tile_size: f64) -> f64 {
    tile_size * (std::f64::consts::PI / 6.0).sin()
}

/// Converts a pixel position that is already centered on the board origin
/// into fixed-point lattice coordinates.
fn to_lattice(x: f64, y: f64, tile_size: f64, scale: i64) -> (i64, i64) {
    let a = x / unit_x(tile_size);
    let b = y / unit_y(tile_size);
    ((a * scale as f64).round() as i64, (b * scale as f64).round() as i64)
}

#[test]
fn round_trip_all_cells_side7() {
    let store = Store::new(7);
    for t in store.tiles() {
        let (a, b) = t.coord_to_pos();
        for scale in [1i64, 2, 7, 1024] {
            let (q, r) = pixel_to_axial(a * scale, b * scale, scale);
            assert_eq!((q, r), (t.q as i64, t.r as i64));
        }
    }
}

#[test]
fn round_trip_through_floats() {
    // Forward with the floating-point basis, back through the fixed-point
    // inverse, for every cell and two tile sizes.
    let scale = 1 << 16;
    for tile_size in [22.0f64, 32.0] {
        let store = Store::new(7);
        for t in store.tiles() {
            let x = 2.0 * (t.q as f64) * unit_x(tile_size) + (t.r as f64) * unit_x(tile_size);
            let y = 2.0 * (t.r as f64) * unit_x(tile_size)
                * (std::f64::consts::PI / 6.0).cos();
            let (an, bn) = to_lattice(x, y, tile_size, scale);
            let (q, r) = pixel_to_axial(an, bn, scale);
            assert_eq!((q, r), (t.q as i64, t.r as i64));
        }
    }
}

#[test]
fn corners_are_six_at_tile_size_distance() {
    let tile = HexTile::new(2, -3);
    let (a, b) = tile.coord_to_pos();
    let corners = tile.corners();
    assert_eq!(corners.len(), 6);
    let tile_size = 22.0f64;
    let (ux, uy) = (unit_x(tile_size), unit_y(tile_size));
    for (ca, cb) in corners.iter() {
        let dx = (*ca - a) as f64 * ux;
        let dy = (*cb - b) as f64 * uy;
        let dist = (dx * dx + dy * dy).sqrt();
        assert!((dist - tile_size).abs() < 1e-9);
    }
}

#[test]
fn corners_sit_at_thirty_plus_sixty_degree_angles() {
    let (a, b) = axial_to_center(0, 0);
    let corners = hex_corners(a, b);
    let tile_size = 10.0f64;
    let (ux, uy) = (unit_x(tile_size), unit_y(tile_size));
    for (i, (ca, cb)) in corners.iter().enumerate() {
        let angle = std::f64::consts::PI / 6.0 + i as f64 * std::f64::consts::PI / 3.0;
        let ex = tile_size * angle.cos();
        let ey = tile_size * angle.sin();
        assert!((*ca as f64 * ux - ex).abs() < 1e-9);
        assert!((*cb as f64 * uy - ey).abs() < 1e-9);
    }
}

#[test]
fn inverse_matches_float_formula_off_boundaries() {
    // The fixed-point inverse agrees with the floating-point per-axis
    // rounding everywhere except immediately at a rounding boundary.
    let tile_size = 22.0f64;
    let scale = 1 << 20;
    let tx = unit_x(tile_size);
    let mut probes = 0;
    let mut step_x = -400.0f64;
    while step_x < 400.0 {
        let mut step_y = -400.0f64;
        while step_y < 400.0 {
            let rf = step_y / (2.0 * (std::f64::consts::PI / 6.0).cos());
            let qf = (step_x - rf) / 2.0;
            let qs = qf / tx;
            let rs = rf / tx;
            let near_tie = |v: f64| (v - v.floor() - 0.5).abs() < 0.01;
            if !near_tie(qs) && !near_tie(rs) {
                let (an, bn) = to_lattice(step_x, step_y, tile_size, scale);
                let (q, r) = pixel_to_axial(an, bn, scale);
                assert_eq!(q, qs.round() as i64);
                assert_eq!(r, rs.round() as i64);
                probes += 1;
            }
            step_y += 17.3;
        }
        step_x += 13.7;
    }
    assert!(probes > 1000);
}

#[test]
fn rounding_ties_go_away_from_zero() {
    // b / (3 scale) = 1.5 and (3a - b) / (6 scale) = 1.5 both snap to 2.
    assert_eq!(pixel_to_axial(9, 9, 2), (2, 2));
    assert_eq!(pixel_to_axial(-9, -9, 2), (-2, -2));
}

#[test]
fn far_click_resolves_off_board() {
    let store = Store::new(7);
    let tile_size = 22.0f64;
    let scale = 1 << 16;
    // A click far outside the surface, larger in magnitude than the whole
    // board extent, after recentering.
    let (an, bn) = to_lattice(-5000.0, -4000.0, tile_size, scale);
    let (q, r) = pixel_to_axial(an, bn, scale);
    assert!(!is_in_hex_board(q as i32, r as i32, 7));
    assert_eq!(store.resolve_click(an, bn, scale), None);
}

#[test]
fn derived_metrics_match_unit_counts() {
    // side = 7, tile size = 22: board size and canvas sizing, reproduced
    // from the unit counts.
    assert_eq!(board_size_of(7), 13);
    assert_eq!(half_board_width_units(7), 13);
    assert_eq!(margin_units(), 1);
    assert_eq!(surface_extent_units(7), 28);
    let ux = unit_x(22.0);
    let width = surface_extent_units(7) as f64 * ux;
    assert_eq!(width as u32, (2.0 * (13.0 * ux) + 2.0 * ux) as u32);
}

#[test]
fn end_to_end_extent_and_center_click() {
    // side = 7, tile size = 32: surface extent is about 775 pixels and a
    // click at the exact center resolves to the origin cell.
    let tile_size = 32.0f64;
    let store = Store::new(7);
    let ux = unit_x(tile_size);
    let extent = surface_extent_units(7) as f64 * ux;
    assert!((extent - 775.0).abs() < 2.0);
    let center = extent / 2.0;
    let margin = ux;
    let half = half_board_width_units(7) as f64 * ux;
    let x = center - margin - half;
    let y = center - margin - half;
    let scale = 1 << 16;
    let (an, bn) = to_lattice(x, y, tile_size, scale);
    assert_eq!(store.resolve_click(an, bn, scale), Some((0, 0)));
}

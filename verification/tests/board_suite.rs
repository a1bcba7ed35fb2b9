use hexboard::board::{is_even, is_odd, HexTile, Store};
use hexboard::geom::is_in_hex_board;
use hexboard::label::int_to_string;

#[test]
fn tile_count_matches_hexagonal_number() {
    for side in 1..=10i32 {
        let store = Store::new(side);
        let expected = 3 * side * side - 3 * side + 1;
        assert_eq!(store.tiles().len() as i32, expected);
        assert_eq!(store.tile_count() as i32, expected);
    }
}

#[test]
fn tile_count_side_one_and_seven() {
    assert_eq!(Store::new(1).tiles().len(), 1);
    assert_eq!(Store::new(7).tiles().len(), 127);
}

#[test]
fn every_tile_passes_membership() {
    let store = Store::new(7);
    for t in store.tiles() {
        assert!(is_in_hex_board(t.q, t.r, 7));
    }
}

#[test]
fn board_is_complete_and_lookup_agrees() {
    let store = Store::new(7);
    for q in -8..=8i32 {
        for r in -8..=8i32 {
            let inside = is_in_hex_board(q, r, 7);
            assert_eq!(store.contains(q, r), inside);
            let listed = store.tiles().iter().any(|t| t.q == q && t.r == r);
            assert_eq!(listed, inside);
        }
    }
}

#[test]
fn no_duplicate_coordinates() {
    let store = Store::new(7);
    let tiles = store.tiles();
    for i in 0..tiles.len() {
        for j in (i + 1)..tiles.len() {
            assert!(tiles[i].q != tiles[j].q || tiles[i].r != tiles[j].r);
        }
    }
}

#[test]
fn generation_order_is_row_major() {
    let store = Store::new(2);
    let coords: Vec<(i32, i32)> = store.tiles().iter().map(|t| (t.q, t.r)).collect();
    assert_eq!(
        coords,
        vec![(-1, 0), (-1, 1), (0, -1), (0, 0), (0, 1), (1, -1), (1, 0)]
    );
}

#[test]
fn parity_helpers_handle_negatives() {
    assert!(is_odd(1));
    assert!(is_odd(-1));
    assert!(is_odd(-2147483647));
    assert!(is_even(0));
    assert!(is_even(-2));
    assert!(is_even(-2147483648));
    assert!(!is_odd(4));
    assert!(!is_even(-7));
}

#[test]
fn fill_color_follows_parity() {
    let store = Store::new(7);
    for t in store.tiles() {
        let expected = match (is_even(t.q), is_even(t.r)) {
            (true, true) => "#111",
            (false, false) => "#333",
            _ => "#222",
        };
        assert_eq!(t.fill_color(), expected);
    }
}

#[test]
fn same_parity_same_shade() {
    assert_eq!(HexTile::new(2, -4).fill_color(), HexTile::new(-6, 0).fill_color());
    assert_eq!(HexTile::new(1, 3).fill_color(), HexTile::new(-3, -5).fill_color());
    assert_eq!(HexTile::new(1, -4).fill_color(), HexTile::new(-5, 2).fill_color());
}

#[test]
fn labels_render_both_coordinates() {
    assert_eq!(HexTile::new(0, 0).label(), "0   0");
    assert_eq!(HexTile::new(-3, 12).label(), "-3   12");
    assert_eq!(HexTile::new(6, -6).label(), "6   -6");
}

#[test]
fn decimal_rendering_handles_extremes() {
    assert_eq!(int_to_string(0), "0");
    assert_eq!(int_to_string(10), "10");
    assert_eq!(int_to_string(-305), "-305");
    assert_eq!(int_to_string(2147483647), "2147483647");
    assert_eq!(int_to_string(-2147483648), "-2147483648");
}

#[test]
fn play_accepts_every_click_and_changes_nothing() {
    let mut store = Store::new(7);
    let before: Vec<(i32, i32)> = store.tiles().iter().map(|t| (t.q, t.r)).collect();
    assert_eq!(store.play(0, 0, 1), Ok(()));
    assert_eq!(store.play(-1_000_000, 2_000_000, 1024), Ok(()));
    assert!(!store.game_over());
    let after: Vec<(i32, i32)> = store.tiles().iter().map(|t| (t.q, t.r)).collect();
    assert_eq!(before, after);
    assert_eq!(store.side(), 7);
}

#[test]
fn resolve_click_reports_hits_and_misses() {
    let store = Store::new(3);
    // Exact center of the cell (1, -2), scaled by 8.
    let (a, b) = (HexTile::new(1, -2).coord_to_pos().0, HexTile::new(1, -2).coord_to_pos().1);
    assert_eq!(store.resolve_click(a * 8, b * 8, 8), Some((1, -2)));
    // The cell (3, 0) lies outside a side-3 board.
    let (a2, b2) = HexTile::new(3, 0).coord_to_pos();
    assert_eq!(store.resolve_click(a2 * 8, b2 * 8, 8), None);
}

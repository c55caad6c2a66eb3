use freecell_solver::basis::{
    base_range, cell_range, desk_range, is_base, is_cell, is_pile, is_play, is_tableau,
    pile_range, play_range, spot_name, spot_to_hex, DESK_SIZE,
};
use freecell_solver::deck;

#[test]
fn ranges() {
    for spot in play_range() {
        assert!(is_cell(spot) || is_pile(spot));
        assert!(!is_base(spot));
    }
    for spot in base_range() {
        assert!(!is_play(spot));
    }
}

#[test]
fn spots() {
    for spot in 0..DESK_SIZE {
        if is_base(spot) {
            assert!(!is_cell(spot));
            assert!(!is_pile(spot));
        }
        if is_cell(spot) {
            assert!(!is_base(spot));
            assert!(!is_pile(spot));
        }
        if is_pile(spot) {
            assert!(!is_base(spot));
            assert!(!is_cell(spot));
        }
    }
}

#[test]
fn tableaux() {
    let a = deck::to_card(1, 2);
    let b = deck::to_card(2, 2);
    let c = deck::to_card(2, 3);

    assert!(!is_tableau(a, b));
    assert!(!is_tableau(b, a));

    assert!(!is_tableau(b, c));
    assert!(!is_tableau(c, b));

    assert!(!is_tableau(a, c));
    assert!(is_tableau(c, a));
}

#[test]
fn zone_sizes() {
    assert_eq!(16, desk_range().len());
    assert_eq!(4, base_range().len());
    assert_eq!(4, cell_range().len());
    assert_eq!(8, pile_range().len());
    assert_eq!(12, play_range().len());
}

#[test]
fn spot_names() {
    assert_eq!("base 1", spot_name(0));
    assert_eq!("base 4", spot_name(3));
    assert_eq!("cell 1", spot_name(4));
    assert_eq!("pile 1", spot_name(8));
    assert_eq!("pile 8", spot_name(15));
    assert_eq!("unknown 16", spot_name(16));
    assert_eq!("unknown 1234", spot_name(1234));
}

#[test]
fn spot_hex_digits() {
    assert_eq!("0", spot_to_hex(8));
    assert_eq!("7", spot_to_hex(15));
    assert_eq!("8", spot_to_hex(0));
    assert_eq!("b", spot_to_hex(3));
    assert_eq!("c", spot_to_hex(4));
    assert_eq!("f", spot_to_hex(7));
    assert_eq!("1f", spot_to_hex(31));
}

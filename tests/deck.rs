use freecell_solver::deck::{
    card_color, card_rank, card_suit, card_to_string, deal, is_card_black, is_card_red, new,
    shuffle, to_card, to_string, CARD_NUM, RANK_NUM, SUIT_NUM,
};

#[test]
fn ranks_and_suits() {
    for rank in 0..RANK_NUM {
        for suit in 0..SUIT_NUM {
            let card = to_card(rank, suit);
            assert_eq!(rank, card_rank(card));
            assert_eq!(suit, card_suit(card));
        }
    }
}

#[test]
fn colors() {
    for card_a in 0..CARD_NUM as u8 {
        for card_b in 0..CARD_NUM as u8 {
            if is_card_black(card_a) {
                assert!(!is_card_red(card_a));
                if is_card_black(card_b) {
                    assert_eq!(card_color(card_a), card_color(card_b));
                } else {
                    assert_ne!(card_color(card_a), card_color(card_b));
                }
            }

            if is_card_red(card_a) {
                assert!(!is_card_black(card_a));
                if is_card_red(card_b) {
                    assert_eq!(card_color(card_a), card_color(card_b));
                } else {
                    assert_ne!(card_color(card_a), card_color(card_b));
                }
            }
        }
    }
}

#[test]
fn creation() {
    let mut cards = new();
    shuffle(&mut cards, 1377011176);
    assert_eq!(
        "K♦3♠4♠J♠T♥7♠K♠A♠\
         K♥2♦2♠A♣K♣6♠2♥4♣\
         9♥Q♠2♣A♥T♦4♦A♦5♣\
         9♣4♥8♠5♦7♦3♥5♥5♠\
         Q♦3♦9♠9♦Q♣T♠3♣8♣\
         J♦7♥6♦8♥8♦T♣J♣J♥\
         Q♥6♣6♥7♣",
        to_string(&cards)
    )
}

#[test]
fn fresh_deck_in_order() {
    let cards = new();
    assert!(to_string(&cards).starts_with("A♠A♦A♣A♥2♠2♦2♣2♥"));
    for (i, card) in cards.iter().enumerate() {
        assert_eq!(i as u8, *card);
    }
}

#[test]
fn card_names() {
    assert_eq!("A♠", card_to_string(to_card(0, 0)));
    assert_eq!("T♥", card_to_string(to_card(9, 3)));
    assert_eq!("K♥", card_to_string(51));
    assert_eq!("", to_string(&[]));
}

#[test]
fn deal_is_a_permutation() {
    let cards = deal(173205951);
    let mut sorted = cards.to_vec();
    sorted.sort();
    assert_eq!(new().to_vec(), sorted);
    assert_ne!(new(), cards);
}

/// The shuffle in double precision, written out for comparison.
fn float_shuffle(cards: &mut [u8], mut seed: u64) {
    let m = 0x80000000u64 as f64;
    let a = 1103515245u64 as f64;
    let c = 12345u64 as f64;
    let len = cards.len();
    for i in 0..len {
        seed = ((a * seed as f64 + c) % m).floor() as u64;
        let j = (seed % len as u64) as usize;
        cards.swap(i, j);
    }
}

#[test]
fn shuffle_matches_double_precision() {
    for seed in [0u64, 1, 90, 173205951, 1377011176, u32::MAX as u64, u64::MAX, 1 << 60] {
        let mut a = new();
        let mut b = new();
        shuffle(&mut a, seed);
        float_shuffle(&mut b, seed);
        assert_eq!(a, b, "seed {}", seed);
    }
}

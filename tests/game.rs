use freecell_solver::basis::{BASE_START, CELL_NUM, CELL_START, PILE_NUM, PILE_START};
use freecell_solver::deck;
use freecell_solver::board::Move;
use freecell_solver::game::Game;
use std::collections::HashMap;

#[test]
fn full_test() {
    // https://constf1.github.io/angular/freecell-demo?deal=173205951&path=4871317c7b737478653d35d53d3e39c8606c656a60e04e46e6461e1f16f6e6213ed35d535f575171f1272f262b2aead35d5e590939c94a083a395c56060a4204020205050beb6b1b1a1e12e21e1b17152b186869d9f9e96a6b2a2b6a6b2a2b4a38c818787958595a49686b28
    let mut game = Game::new();
    game.deal(&deck::deal(173205951));

    let mut key_map = HashMap::new();
    key_map.insert(game.get_invariant(), game.path().len());
    assert_eq!(1, key_map.len());
    assert!(key_map.get(&game.get_invariant()).is_some());

    assert_eq!(0, game.count_empty_piles());
    assert_eq!(0, game.count_solved());
    assert_eq!(CELL_NUM, game.count_empty_cells());
    assert_eq!(deck::CARD_NUM, game.count_unsolved());

    assert_eq!(0, game.path().len());
    let mut estimate = deck::CARD_NUM + 19;
    assert_eq!(estimate, game.estimate_path_len());

    game.move_cards_auto();
    assert_eq!(1, game.path().len());
    assert_eq!(estimate, game.estimate_path_len());

    assert_eq!(None, key_map.get(&game.get_invariant()));
    key_map.insert(game.get_invariant(), game.path().len());
    assert_eq!(2, key_map.len());
    assert!(key_map.get(&game.get_invariant()).is_some());

    assert!(game.has_next_move());
    game.move_card(PILE_START + 7, PILE_START + 1);
    game.move_card(PILE_START + 3, PILE_START + 1);
    game.move_card(PILE_START + 7, CELL_START + 0);
    assert_eq!(4, game.path().len());
    assert!(estimate <= game.estimate_path_len());
    assert!(key_map.get(&game.get_invariant()).is_none());

    estimate = game.estimate_path_len();
    game.move_cards_auto();
    assert_eq!(5, game.path().len());
    assert_eq!(estimate, game.estimate_path_len());

    assert!(game.has_next_move());
    game.move_card(PILE_START + 7, PILE_START + 3);
    game.move_card(PILE_START + 7, PILE_START + 4);
    assert_eq!(7, game.path().len());
    assert!(estimate <= game.estimate_path_len());

    estimate = game.estimate_path_len();
    game.move_cards_auto();
    assert_eq!(8, game.path().len());
    assert_eq!(estimate, game.estimate_path_len());

    assert!(game.has_next_move());
    game.move_card(PILE_START + 6, PILE_START + 5);
    game.move_card(PILE_START + 3, CELL_START + 1);
    game.move_card(PILE_START + 3, PILE_START + 5);
    game.move_card(CELL_START + 1, PILE_START + 5);
    game.move_card(PILE_START + 3, CELL_START + 1);
    game.move_card(PILE_START + 3, CELL_START + 2);
    assert_eq!(14, game.path().len());
    assert!(estimate <= game.estimate_path_len());

    estimate = game.estimate_path_len();
    game.move_cards_auto();
    assert_eq!(16, game.path().len());
    assert_eq!(estimate, game.estimate_path_len());

    assert!(game.has_next_move());
    game.move_card(PILE_START + 6, PILE_START + 0);
    game.move_card(PILE_START + 6, CELL_START + 0);
    game.move_card(PILE_START + 6, PILE_START + 5);
    assert_eq!(19, game.path().len());
    assert!(estimate <= game.estimate_path_len());

    estimate = game.estimate_path_len();
    game.move_cards_auto();
    assert_eq!(20, game.path().len());
    assert_eq!(estimate, game.estimate_path_len());

    assert!(game.has_next_move());
    game.move_card(PILE_START + 6, PILE_START + 0);
    game.move_card(CELL_START + 2, PILE_START + 0);
    assert_eq!(0, game.move_cards_auto());
    assert_eq!(22, game.path().len());
    assert_eq!(4, game.count_empty());
    assert!(game.has_next_move());
    assert!(!game.has_move_to_base());
    assert!(game.has_move_to_cell());
    assert!(game.has_move_to_pile());
    assert!(game.has_move_to_tableau());
    assert!(estimate <= game.estimate_path_len());

    assert!(game.has_next_move());
    game.move_card(PILE_START + 4, CELL_START + 2);
    game.move_card(PILE_START + 4, PILE_START + 6);
    game.move_card(CELL_START + 2, PILE_START + 6);
    game.move_card(PILE_START + 4, PILE_START + 6);
    game.move_card(PILE_START + 1, CELL_START + 2);
    game.move_card(PILE_START + 1, CELL_START + 3);
    game.move_card(PILE_START + 1, PILE_START + 6);
    game.move_card(CELL_START + 3, PILE_START + 6);
    game.move_card(CELL_START + 2, PILE_START + 6);
    game.move_card(PILE_START + 2, PILE_START + 1);
    game.move_card(PILE_START + 3, CELL_START + 2);
    game.move_card(CELL_START + 1, PILE_START + 3);
    game.move_card(PILE_START + 5, CELL_START + 1);
    game.move_card(PILE_START + 5, PILE_START + 3);
    game.move_card(PILE_START + 5, CELL_START + 3);
    game.move_card(PILE_START + 5, PILE_START + 7);
    game.move_card(PILE_START + 5, PILE_START + 1);
    assert_eq!(39, game.path().len());
    assert_eq!(0, game.count_empty());
    assert!(game.has_next_move());
    assert!(!game.has_move_to_base());
    assert!(!game.has_move_to_cell());
    assert!(!game.has_move_to_pile());
    assert!(game.has_move_to_tableau());
    assert!(estimate <= game.estimate_path_len());

    assert!(game.has_next_move());
    game.move_card(PILE_START + 7, PILE_START + 1);
    assert!(game.has_move_to_pile());
    game.move_card(CELL_START + 3, PILE_START + 1);
    assert!(game.has_move_to_cell());

    assert!(game.has_next_move());
    game.move_card(PILE_START + 2, PILE_START + 7);
    game.move_card(PILE_START + 2, CELL_START + 3);
    game.move_card(PILE_START + 2, PILE_START + 6);
    assert_eq!(44, game.path().len());
    assert!(!game.has_move_to_pile());
    assert!(!game.has_move_to_cell());
    assert!(estimate <= game.estimate_path_len());

    estimate = game.estimate_path_len();
    assert!(game.has_move_to_base());
    game.move_cards_auto();
    assert_eq!(47, game.path().len());
    assert_eq!(estimate, game.estimate_path_len());

    assert!(game.has_next_move());
    game.move_card(CELL_START + 1, PILE_START + 3);
    game.move_card(PILE_START + 5, CELL_START + 1);
    game.move_card(PILE_START + 5, CELL_START + 2);
    assert_eq!(50, game.path().len());
    assert!(!game.has_move_to_pile());
    assert!(!game.has_move_to_cell());
    assert!(estimate <= game.estimate_path_len());

    estimate = game.estimate_path_len();
    assert!(game.has_move_to_base());
    game.move_cards_auto();
    assert_eq!(56, game.path().len());
    assert_eq!(estimate, game.estimate_path_len());

    game.move_card(PILE_START + 3, BASE_START + 2);
    assert_eq!(57, game.path().len());
    assert!(estimate <= game.estimate_path_len());

    estimate = game.estimate_path_len();
    assert!(game.has_move_to_base());
    game.move_cards_auto();
    assert_eq!(58, game.path().len());
    assert_eq!(estimate, game.estimate_path_len());

    assert!(game.has_next_move());
    game.move_card(PILE_START + 5, CELL_START + 0);
    game.move_card(PILE_START + 5, PILE_START + 6);
    game.move_card(PILE_START + 0, PILE_START + 6);
    game.move_card(PILE_START + 0, BASE_START + 2);
    game.move_card(PILE_START + 4, PILE_START + 2);
    game.move_card(PILE_START + 0, PILE_START + 4);
    game.move_card(PILE_START + 0, PILE_START + 2);
    game.move_card(PILE_START + 0, PILE_START + 2);
    game.move_card(PILE_START + 0, PILE_START + 5);
    game.move_card(PILE_START + 0, PILE_START + 5);
    assert_eq!(68, game.path().len());
    game.move_cards_auto();
    assert_eq!(73, game.path().len());
    assert_eq!(23, game.count_solved());
    assert_eq!(2, game.count_empty());
    assert_eq!(1, game.count_empty_cells());
    assert_eq!(1, game.count_empty_piles());

    assert!(game.has_next_move());
    game.move_card(PILE_START + 1, PILE_START + 0);
    game.move_card(PILE_START + 1, PILE_START + 2);
    game.move_card(PILE_START + 0, PILE_START + 2);
    game.move_card(PILE_START + 1, CELL_START + 2);
    game.move_card(PILE_START + 1, BASE_START + 3);
    game.move_card(PILE_START + 1, PILE_START + 7);
    game.move_card(PILE_START + 1, PILE_START + 5);
    assert_eq!(80, game.path().len());
    assert_eq!(108, game.estimate_path_len());
    assert!(!game.is_done());
    assert!(game.count_unsolved() > 0);
    assert_eq!(0, game.count_locks());

    game.move_cards_auto();
    assert_eq!(108, game.path().len());
    assert_eq!(108, game.estimate_path_len());
    assert!(game.is_done());
    assert_eq!(PILE_NUM, game.count_empty_piles());
    assert_eq!(CELL_NUM, game.count_empty_cells());
    assert_eq!(0, game.count_unsolved());
    assert_eq!(0, game.count_locks());

    game.rewind();
    assert_eq!(0, game.count_empty_piles());
    assert_eq!(0, game.count_solved());
    assert_eq!(CELL_NUM, game.count_empty_cells());
    assert_eq!(deck::CARD_NUM, game.count_unsolved());
    assert_eq!(0, game.path().len());
    assert!(!game.is_done());
    assert!(key_map.get(&game.get_invariant()).is_some());
}

#[test]
fn invariants() {
    let mut game_a = Game::new();
    game_a.deal(&deck::deal(90));

    let mut game_b = Game::new();
    game_b.deal(&deck::deal(80));
    game_b.deal(&deck::deal(90));

    let key_a_0 = game_a.get_invariant();
    let key_b_0 = game_b.get_invariant();
    assert_eq!(key_a_0, key_b_0);
    assert_eq!(key_b_0, key_a_0);

    game_a.move_cards_auto();
    let key_a_1 = game_a.get_invariant();
    assert_ne!(key_a_1, key_b_0);
    assert_ne!(key_a_1, key_a_0);

    game_b.move_cards_auto();
    let key_b_1 = game_b.get_invariant();
    assert_eq!(key_a_1, key_b_1);
    assert_ne!(key_b_0, key_b_1);

    game_a.rewind();
    let key_a_2 = game_a.get_invariant();
    assert_eq!(key_a_0, key_a_2);
}

/// Replays `moves` on a freshly dealt game.
fn replayed(seed: u64, moves: &[Move]) -> Game {
    let mut game = Game::new();
    game.deal(&deck::deal(seed));
    game.forward(moves);
    game
}

#[test]
fn undo_matches_prefix_replay() {
    let mut game = Game::new();
    game.deal(&deck::deal(173205951));
    game.move_cards_auto();
    game.move_card(PILE_START + 7, PILE_START + 1);
    game.move_card(PILE_START + 3, PILE_START + 1);
    game.move_card(PILE_START + 7, CELL_START);
    game.move_cards_auto();
    game.move_card(PILE_START + 7, PILE_START + 3);
    let full: Vec<Move> = game.path().clone();
    for k in (0..=full.len()).rev() {
        game.backward(k);
        let other = replayed(173205951, &full[..k]);
        assert_eq!(other.desk(), game.desk());
        assert_eq!(other.path(), game.path());
    }
    assert_eq!(0, game.path().len());
}

#[test]
fn auto_play_twice_moves_nothing_more() {
    for seed in [1u64, 90, 173205951] {
        let mut game = Game::new();
        game.deal(&deck::deal(seed));
        let first = game.move_cards_auto();
        assert_eq!(first, game.path().len());
        assert_eq!(0, game.move_cards_auto());
        assert_eq!(first, game.path().len());
    }
}

#[test]
fn auto_play_keeps_the_estimate() {
    let mut game = Game::new();
    game.deal(&deck::deal(173205951));
    let before = game.estimate_path_len();
    game.move_cards_auto();
    assert!(before <= game.estimate_path_len());
    assert_eq!(deck::CARD_NUM + 19, game.estimate_path_len());
}

#[test]
fn no_move_takes_back_the_last() {
    let mut game = Game::new();
    game.deal(&deck::deal(173205951));
    game.move_cards_auto();
    for _ in 0..30 {
        let moves = game.get_all_moves();
        if moves.is_empty() {
            break;
        }
        if let Some(last) = game.path().last() {
            for mv in &moves {
                assert!(!(mv.giver() == last.taker() && mv.taker() == last.giver()));
            }
        }
        let mv = moves[moves.len() / 2];
        game.move_card(mv.giver(), mv.taker());
        let back = game.get_all_moves();
        assert!(!back.contains(&Move::new(mv.taker(), mv.giver())));
    }
}

#[test]
fn cascades_in_any_spot_fingerprint_alike() {
    let cards = deck::deal(90);
    // Deal the same columns onto the cascades, neighbours swapped.
    let mut swapped = cards;
    for (i, card) in cards.iter().enumerate() {
        let column = i % PILE_NUM;
        let row = i / PILE_NUM;
        swapped[row * PILE_NUM + (column ^ 1)] = *card;
    }
    let mut game_a = Game::new();
    game_a.deal(&cards);
    let mut game_b = Game::new();
    game_b.deal(&swapped);
    assert_ne!(game_a.desk(), game_b.desk());
    assert_eq!(game_a.get_invariant(), game_b.get_invariant());

    // Which free cell holds a card does not matter either.
    game_a.move_card(PILE_START, CELL_START);
    game_b.move_card(PILE_START + 1, CELL_START + 3);
    assert_eq!(game_a.get_invariant(), game_b.get_invariant());

    // A foundation depth does.
    let mut game_c = Game::new();
    game_c.deal(&cards);
    game_c.move_card(PILE_START, BASE_START);
    assert_ne!(game_a.get_invariant(), game_c.get_invariant());
}

#[test]
fn move_generators_on_the_deal() {
    let mut game = Game::new();
    game.deal(&deck::deal(173205951));
    assert!(game.has_move_to_cell());
    assert!(!game.has_move_to_pile());
    let moves = game.get_all_moves();
    assert!(moves.len() >= PILE_NUM);
    assert!(game.get_empty_cell() == Some(CELL_START));
    assert!(game.get_empty_pile().is_none());
    assert_eq!(PILE_NUM, game.count_empty_cells() + game.count_empty_piles() + 4);
}

#[test]
fn locks_in_a_cascade() {
    // 2♠ above A♠ blocks it; 3♦ above nothing lower of its suit does not.
    let pile = vec![deck::to_card(0, 0), deck::to_card(2, 1), deck::to_card(1, 0)];
    assert!(!Game::is_lock(&pile, 0));
    assert!(!Game::is_lock(&pile, 1));
    assert!(Game::is_lock(&pile, 2));
}

#[test]
fn base_ranks() {
    let ranks = freecell_solver::game::BaseRanks::new(2, 5);
    // A black card is measured against the red foundations, and back.
    assert_eq!(6, ranks.next_rank(deck::to_card(0, 0)));
    assert_eq!(3, ranks.next_rank(deck::to_card(0, 1)));
    assert!(ranks.ge(deck::to_card(6, 0)));
    assert!(!ranks.ge(deck::to_card(7, 0)));
}

#[test]
fn board_as_text() {
    let mut game = Game::new();
    game.deal(&deck::deal(1377011176));
    let expected = "|  |  |  |  |  |  |  |  |\n\
                    -------------------------\n\
                    |K♦|3♠|4♠|J♠|T♥|7♠|K♠|A♠|\n\
                    |K♥|2♦|2♠|A♣|K♣|6♠|2♥|4♣|\n\
                    |9♥|Q♠|2♣|A♥|T♦|4♦|A♦|5♣|\n\
                    |9♣|4♥|8♠|5♦|7♦|3♥|5♥|5♠|\n\
                    |Q♦|3♦|9♠|9♦|Q♣|T♠|3♣|8♣|\n\
                    |J♦|7♥|6♦|8♥|8♦|T♣|J♣|J♥|\n\
                    |Q♥|6♣|6♥|7♣|  |  |  |  |";
    assert_eq!(expected, game.to_string());

    // A free cell shows its card, a foundation its top card.
    game.move_card(PILE_START + 7, CELL_START);
    game.move_card(PILE_START + 3, BASE_START + 2);
    assert!(game.to_string().starts_with("|J♥|  |  |  |  |  |7♣|  |\n"));
}

#[test]
fn moves_keep_the_deck() {
    let mut game = Game::new();
    game.deal(&deck::deal(90));
    game.move_cards_auto();
    for step in 0..40 {
        let moves = game.get_all_moves();
        if moves.is_empty() {
            break;
        }
        let mv = moves[step % moves.len()];
        game.move_card(mv.giver(), mv.taker());
        game.move_cards_auto();
        let mut cards: Vec<u8> = game.desk().iter().flatten().copied().collect();
        cards.sort();
        assert_eq!(deck::new().to_vec(), cards);
    }
}

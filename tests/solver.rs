use freecell_solver::deck;
use freecell_solver::game::Game;
use freecell_solver::solver::{game_priority, Solver};

#[test]
fn dealing_files_one_candidate() {
    let mut sol = Solver::new();
    sol.deal(173205951);
    let game = sol.game();
    assert_eq!(0, game.count_empty_piles());
    assert_eq!(4, game.count_empty_cells());
    assert_eq!(52, game.count_unsolved());
    assert_eq!(0, game.path().len());
    assert_eq!(vec![0], sol.bank().grades());
    assert_eq!(1, sol.bank().len());
    assert_eq!(1, sol.done().len());
    assert!(sol.path().is_none());
}

#[test]
fn search_finds_a_solution() {
    let seed = 173205951;
    let mut sol = Solver::new();
    sol.deal(seed);
    let mut found = false;
    for _ in 0..10000 {
        match sol.next(257, 1000, false) {
            Some(true) => {
                found = true;
                break;
            }
            Some(false) => {}
            None => break,
        }
        if sol.done().len() > 2_000_000 {
            break;
        }
    }
    assert!(found);
    let path = sol.path().expect("a solution").clone();
    assert!(path.len() < 257);
    // Recorded boards that cannot beat the solution are forgotten.
    for len in sol.done().values() {
        assert!(*len < path.len());
    }
    let mut game = Game::new();
    game.deal(&deck::deal(seed));
    game.forward(&path);
    assert!(game.is_done());
    assert_eq!(52, game.count_solved());
    assert_eq!(8, game.count_empty_piles());
    assert_eq!(4, game.count_empty_cells());

    // A tighter search for the same deal can only do better.
    let before = path.len();
    if let Some(true) = sol.next(257, 1000, false) {
        assert!(sol.path().unwrap().len() < before);
    }
    let (_, best) = sol.into_solution();
    assert!(best.unwrap().len() <= before);
}

#[test]
fn empty_bank_means_no_more_work() {
    let mut sol = Solver::new();
    assert_eq!(None, sol.next(100, 10, false));
    sol.deal(1);
    sol.clear();
    assert_eq!(None, sol.next(100, 10, false));
}

#[test]
fn a_bound_too_low_finds_nothing() {
    let mut sol = Solver::new();
    sol.deal(173205951);
    for _ in 0..50 {
        match sol.next(20, 100, false) {
            Some(found) => assert!(!found),
            None => break,
        }
    }
    assert!(sol.path().is_none());
}

#[test]
fn priorities() {
    let mut game = Game::new();
    game.deal(&deck::deal(173205951));
    assert_eq!(0, game_priority(&game));
    let unsolved = game.count_unsolved();
    let locks = game.count_locks();
    for _ in 0..4 {
        game.move_card(8, 9);
        game.move_card(9, 8);
    }
    // Eight moves: the length counts four times.
    assert_eq!(10 * unsolved + 9 * locks + 8 * 4, game_priority(&game));
}

#[test]
fn clearing_forgets_everything() {
    let mut sol = Solver::new();
    sol.deal(90);
    sol.next(257, 10, false);
    sol.clear();
    assert_eq!(0, sol.bank().len());
    assert_eq!(0, sol.bank().grade_num());
    assert!(sol.done().is_empty());
    assert!(sol.path().is_none());
    assert!(sol.game().path().is_empty());
    assert!(sol.game().desk().iter().all(|pile| pile.is_empty()));
}

#[test]
fn dealing_records_the_dealt_board() {
    let seed = 173205951;
    let mut sol = Solver::new();
    sol.deal(seed);
    let mut game = Game::new();
    game.deal(&deck::deal(seed));
    game.move_cards_auto();
    let key = game.get_invariant().packed();
    assert_eq!(1, sol.done().len());
    assert_eq!(Some(&game.path().len()), sol.done().get(&key));
    assert_eq!(vec![0], sol.bank().grades());
    assert_eq!(1, sol.bank().len());
}

#[test]
fn a_step_takes_the_batch_from_the_lowest_grade() {
    let mut sol = Solver::new();
    sol.deal(173205951);
    // An empty batch expands nothing.
    assert_eq!(Some(false), sol.next(257, 0, false));
    assert_eq!(1, sol.bank().len());
    assert_eq!(1, sol.done().len());
    // Expanding the dealt path files its children, each recorded once.
    let dealt = sol.bank().len();
    assert_eq!(Some(false), sol.next(257, 1, false));
    assert!(sol.bank().len() >= dealt);
    assert!(sol.done().len() >= 2);
    assert!(sol.done().len() <= 1 + sol.bank().len());
    assert!(sol.path().is_none());
}

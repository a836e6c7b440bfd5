//! Search-engine behaviour: determinism, forced moves, terminal-score
//! dominance, the evaluator, and whole games played to the end.

use rusthello::game::{Cell, Game, Player, Status};
use rusthello::heuristic::heavy_eval;
use rusthello::score::Score;
use rusthello::search::{board_intersec, eval, find_best_move, make_move, SearchConfig};

fn taken(p: Player) -> Cell {
    Cell::Taken { player: p }
}

fn quick_config() -> SearchConfig {
    SearchConfig { minimum_depth: 1, time_limit_ns: 1, endgame_threshold: 2, randomness_tolerance: 0 }
}

#[test]
fn search_is_deterministic_at_fixed_depth() {
    let game = Game::new();
    let first = find_best_move(&game, 3, 0);
    let second = find_best_move(&game, 3, 0);
    assert_eq!(first, second);
}

#[test]
fn opening_search_keeps_the_first_of_equal_moves() {
    // The four opening replies are symmetric, so their leaf values are
    // equal and the scan-order tie-break keeps the first one.
    let game = Game::new();
    assert_eq!(find_best_move(&game, 1, 0), (2, 3));
}

#[test]
fn tolerance_lets_a_later_near_tie_win() {
    // With a tolerance of one, each equally-scored later reply counts
    // as beating the best so far, so the last of the four opening
    // replies is kept instead of the first.
    let game = Game::new();
    assert_eq!(find_best_move(&game, 1, 1), (5, 4));
}

#[test]
fn search_prefers_the_better_later_move() {
    // Dark may capture a dull edge run at (0,3) or take the corner at
    // (7,7); the corner is far better for Dark and scanned last, so a
    // selection that ignored the evaluations would get this wrong.
    let mut board = vec![Cell::Empty; 64];
    board[4] = taken(Player::Light); // (0,4), capturable from (0,3)
    board[5] = taken(Player::Dark); // (0,5)
    board[7 * 8 + 5] = taken(Player::Dark); // (7,5)
    board[7 * 8 + 6] = taken(Player::Light); // (7,6)
    let game = Game::new_custom_game(Status::Running { next_player: Player::Dark }, board);
    assert_eq!(game.legal_moves(), vec![(0, 3), (7, 7)]);
    assert_eq!(find_best_move(&game, 1, 0), (7, 7));
}

#[test]
fn forced_move_is_returned_for_every_strength() {
    // After Dark's capture at (0,0) the only legal move is (2,2).
    let mut board = vec![Cell::Empty; 64];
    board[1] = taken(Player::Light);
    board[2] = taken(Player::Dark);
    board[2 * 8] = taken(Player::Dark);
    board[2 * 8 + 1] = taken(Player::Light);
    let mut game = Game::new_custom_game(Status::Running { next_player: Player::Dark }, board);
    assert!(game.make_move((0, 0)));
    assert_eq!(game.legal_moves().len(), 1);
    let slow = SearchConfig { minimum_depth: 8, time_limit_ns: u64::MAX, endgame_threshold: 13, randomness_tolerance: 1 };
    assert_eq!(make_move(&game, &quick_config()), (2, 2));
    assert_eq!(make_move(&game, &slow), (2, 2));
    assert_eq!(find_best_move(&game, 1, 0), (2, 2));
    assert_eq!(find_best_move(&game, 4, 0), (2, 2));
}

#[test]
fn terminal_scores_dominate_running_ones() {
    assert!(Score::Ended(5).is_better_than(&Score::Running(30_000)));
    assert!(Score::Ended(1).is_better_than(&Score::Running(1)));
    assert!(!Score::Ended(-5).is_better_than(&Score::Running(-30_000)));
    assert!(Score::Running(-30_000).is_better_than(&Score::Ended(-1)));
    assert!(Score::Ended(3).is_better_than(&Score::Ended(2)));
    assert!(Score::Running(4).is_better_than(&Score::Running(3)));
    // A drawn finish sits between winning and losing running values.
    assert!(Score::Ended(0).is_better_than(&Score::Running(-1)));
    assert!(Score::Running(1).is_better_than(&Score::Ended(0)));
}

#[test]
fn eval_returns_the_exact_diff_of_an_ended_game() {
    let mut board = vec![Cell::Empty; 64];
    board[0] = taken(Player::Light);
    board[1] = taken(Player::Light);
    board[2] = taken(Player::Dark);
    let game = Game::new_custom_game(Status::Ended, board);
    assert_eq!(eval(&game, 0), Score::Ended(1));
    assert_eq!(eval(&game, 5), Score::Ended(1));
}

#[test]
fn eval_at_cutoff_uses_the_heuristic_and_tempo() {
    let game = Game::new();
    // The opening position is symmetric, so the heuristic is zero and
    // only Dark's tempo bonus remains.
    assert_eq!(heavy_eval(&game), 0);
    assert_eq!(eval(&game, 0), Score::Running(-3));
}

#[test]
fn heuristic_values_a_corner() {
    let mut board = vec![Cell::Empty; 64];
    board[0] = taken(Player::Dark); // the (0,0) corner alone
    let game = Game::new_custom_game(Status::Running { next_player: Player::Light }, board);
    assert_eq!(heavy_eval(&game), -50);
    // A wall beside an owned corner is worth more.
    let mut board2 = vec![Cell::Empty; 64];
    board2[0] = taken(Player::Light); // (0,0)
    board2[1] = taken(Player::Light); // (0,1): adjacent edge cell
    board2[2] = taken(Player::Light); // (0,2): one step further
    let game2 = Game::new_custom_game(Status::Running { next_player: Player::Light }, board2);
    assert_eq!(heavy_eval(&game2), 50 + 3 + 3);
    // Sitting beside an open corner is a malus to the occupier.
    let mut board3 = vec![Cell::Empty; 64];
    board3[1] = taken(Player::Light); // (0,1) with (0,0) open
    let game3 = Game::new_custom_game(Status::Running { next_player: Player::Light }, board3);
    assert_eq!(heavy_eval(&game3), -7);
}

#[test]
fn whole_game_reaches_the_end() {
    let config = quick_config();
    let mut game = Game::new();
    let mut plies = 0;
    while matches!(game.get_status(), Status::Running { .. }) {
        assert!(plies < 100, "the game should end within sixty moves");
        let coord = make_move(&game, &config);
        assert!(game.check_move(coord));
        assert!(game.make_move(coord));
        plies += 1;
    }
    let (light, dark) = game.get_score();
    let board = game.get_board();
    let on_board = board
        .iter()
        .filter(|c| matches!(c, Cell::Taken { .. }))
        .count();
    assert_eq!(on_board, (light + dark) as usize);
    // Once ended, the game stays ended.
    assert!(!game.make_move((0, 0)));
    assert_eq!(game.get_status(), Status::Ended);
}

#[test]
fn two_ai_levels_finish_a_match() {
    let adam = SearchConfig { minimum_depth: 1, time_limit_ns: 1, endgame_threshold: 2, randomness_tolerance: 0 };
    let eve = SearchConfig { minimum_depth: 2, time_limit_ns: 1, endgame_threshold: 3, randomness_tolerance: 1 };
    let mut game = Game::new();
    let mut plies = 0;
    while let Status::Running { next_player } = game.get_status() {
        assert!(plies < 100);
        let config = match next_player {
            Player::Dark => &adam,
            Player::Light => &eve,
        };
        let coord = make_move(&game, config);
        assert!(game.make_move(coord));
        plies += 1;
    }
    let (light, dark) = game.get_score();
    assert!(light as u32 + dark as u32 <= 64);
}

#[test]
fn intersection_keeps_only_common_disks() {
    let mut a = vec![Cell::Empty; 64];
    let mut b = vec![Cell::Empty; 64];
    a[0] = taken(Player::Light);
    b[0] = taken(Player::Light); // common Light disk
    a[1] = taken(Player::Dark);
    b[1] = taken(Player::Dark); // common Dark disk
    a[2] = taken(Player::Light); // only in one board
    b[3] = taken(Player::Dark); // only in the other
    a[4] = taken(Player::Light);
    b[4] = taken(Player::Dark); // owners disagree
    let (common, diff) = board_intersec(&vec![a, b]);
    assert_eq!(common[0], taken(Player::Light));
    assert_eq!(common[1], taken(Player::Dark));
    assert_eq!(common[2], Cell::Empty);
    assert_eq!(common[3], Cell::Empty);
    assert_eq!(common[4], Cell::Empty);
    assert_eq!(diff, 0);
    let (common2, diff2) = board_intersec(&vec![common.clone()]);
    assert_eq!(common2, common);
    assert_eq!(diff2, 0);
    let empty: Vec<Vec<Cell>> = Vec::new();
    let (none, diff3) = board_intersec(&empty);
    assert!(none.iter().all(|c| matches!(c, Cell::Empty)));
    assert_eq!(diff3, 0);
}

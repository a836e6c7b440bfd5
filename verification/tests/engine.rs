//! Rules-engine scenarios: the opening position, capturing, passing,
//! and the end of the game.

use rusthello::game::{Cell, Game, Player, Status};

fn taken(p: Player) -> Cell {
    Cell::Taken { player: p }
}

#[test]
fn opening_legal_moves() {
    let game = Game::new();
    let moves = game.legal_moves();
    assert_eq!(moves, vec![(2, 3), (3, 2), (4, 5), (5, 4)]);
}

#[test]
fn opening_scores_and_status() {
    let game = Game::new();
    assert_eq!(game.get_score(), (2, 2));
    assert_eq!(game.get_turn(), 4);
    assert_eq!(game.get_status(), Status::Running { next_player: Player::Dark });
    assert_eq!(game.get_cell((3, 3)), taken(Player::Light));
    assert_eq!(game.get_cell((4, 4)), taken(Player::Light));
    assert_eq!(game.get_cell((3, 4)), taken(Player::Dark));
    assert_eq!(game.get_cell((4, 3)), taken(Player::Dark));
}

#[test]
fn first_move_flips_one_disk() {
    let mut game = Game::new();
    assert!(game.check_move((2, 3)));
    assert!(game.make_move((2, 3)));
    assert_eq!(game.get_cell((2, 3)), taken(Player::Dark));
    assert_eq!(game.get_cell((3, 3)), taken(Player::Dark));
    assert_eq!(game.get_cell((4, 4)), taken(Player::Light));
    assert_eq!(game.get_score(), (1, 4));
    assert_eq!(game.get_status(), Status::Running { next_player: Player::Light });
}

#[test]
fn score_sum_grows_by_one_plus_flips() {
    let mut game = Game::new();
    let before = game.get_turn();
    assert!(game.make_move((2, 3)));
    assert_eq!(game.get_turn(), before + 1);
    let board = game.get_board();
    let on_board = board
        .iter()
        .filter(|c| matches!(c, Cell::Taken { .. }))
        .count();
    let (light, dark) = game.get_score();
    assert_eq!(on_board, (light + dark) as usize);
}

#[test]
fn illegal_move_is_rejected_without_change() {
    let mut game = Game::new();
    let board_before = game.get_board();
    let score_before = game.get_score();
    assert!(!game.make_move((0, 0)));
    assert!(!game.make_move((3, 3)));
    assert!(!game.make_move((9, 9)));
    assert_eq!(game.get_board(), board_before);
    assert_eq!(game.get_score(), score_before);
    assert_eq!(game.get_status(), Status::Running { next_player: Player::Dark });
}

#[test]
fn forced_pass_keeps_the_mover() {
    // Dark captures at (0,0); afterwards Light has no move anywhere,
    // but Dark can still play (2,2), so the turn passes back to Dark.
    let mut board = vec![Cell::Empty; 64];
    board[1] = taken(Player::Light); // (0,1)
    board[2] = taken(Player::Dark); // (0,2)
    board[2 * 8] = taken(Player::Dark); // (2,0)
    board[2 * 8 + 1] = taken(Player::Light); // (2,1)
    let mut game = Game::new_custom_game(Status::Running { next_player: Player::Dark }, board);
    assert!(game.make_move((0, 0)));
    assert_eq!(game.get_status(), Status::Running { next_player: Player::Dark });
    assert_eq!(game.legal_moves(), vec![(2, 2)]);
}

#[test]
fn no_moves_for_either_side_ends_the_game() {
    // Dark captures at (0,0); afterwards no Light disk remains, so
    // neither side has a move and the game is over.
    let mut board = vec![Cell::Empty; 64];
    board[1] = taken(Player::Light); // (0,1)
    board[2] = taken(Player::Dark); // (0,2)
    let mut game = Game::new_custom_game(Status::Running { next_player: Player::Dark }, board);
    assert!(game.make_move((0, 0)));
    assert_eq!(game.get_status(), Status::Ended);
    assert_eq!(game.get_score(), (0, 3));
    assert_eq!(game.get_score_diff(), -3);
}

#[test]
fn full_board_has_no_moves() {
    let mut board = vec![taken(Player::Dark); 64];
    for i in 0..32 {
        board[i] = taken(Player::Light);
    }
    for side in [Player::Light, Player::Dark] {
        let game = Game::new_custom_game(Status::Running { next_player: side }, board.clone());
        assert!(!game.can_move());
        assert!(game.legal_moves().is_empty());
    }
}

#[test]
fn ended_game_is_absorbing() {
    let mut board = vec![Cell::Empty; 64];
    board[0] = taken(Player::Dark);
    board[1] = taken(Player::Light);
    let mut game = Game::new_custom_game(Status::Ended, board);
    for row in 0..8 {
        for col in 0..8 {
            assert!(!game.check_move((row, col)));
        }
    }
    assert!(!game.make_move((2, 0)));
    assert_eq!(game.get_status(), Status::Ended);
    assert_eq!(game.get_score(), (1, 1));
}

#[test]
fn opposite_is_involutive() {
    assert_eq!(Player::Light.opposite(), Player::Dark);
    assert_eq!(Player::Dark.opposite(), Player::Light);
    assert_eq!(Player::Light.opposite().opposite(), Player::Light);
}

#[test]
fn clone_leaves_the_original_untouched() {
    let game = Game::new();
    let mut copy = game.clone();
    assert!(copy.make_move((2, 3)));
    assert_eq!(game.get_score(), (2, 2));
    assert_eq!(game.get_cell((2, 3)), Cell::Empty);
    assert_eq!(copy.get_cell((2, 3)), taken(Player::Dark));
}

#[test]
fn custom_game_counts_its_scores() {
    let mut board = vec![Cell::Empty; 64];
    board[10] = taken(Player::Light);
    board[11] = taken(Player::Light);
    board[12] = taken(Player::Dark);
    let game = Game::new_custom_game(Status::Running { next_player: Player::Light }, board);
    assert_eq!(game.get_score(), (2, 1));
    assert_eq!(game.get_score_diff(), 1);
    assert_eq!(game.get_turn(), 3);
}

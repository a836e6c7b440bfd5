//! The text protocol for out-of-process opponents, input parsing, and
//! the opponent kinds.

use rusthello::codec::{board_to_string, status_to_string, string_to_game};
use rusthello::game::{Cell, Game, Player, Status};
use rusthello::player::{AiPlayer, Opponent, parse_move_input};

#[test]
fn status_encoding() {
    assert_eq!(status_to_string(Status::Running { next_player: Player::Light }), "O");
    assert_eq!(status_to_string(Status::Running { next_player: Player::Dark }), "X");
    assert_eq!(status_to_string(Status::Ended), ".");
}

#[test]
fn board_encoding_of_the_opening() {
    let game = Game::new();
    let text = board_to_string(game.get_board());
    let expected = "\
...........................OX......XO...........................";
    assert_eq!(text.len(), 64);
    assert_eq!(text, expected);
}

#[test]
fn strings_round_trip_through_a_game() {
    let mut game = Game::new();
    assert!(game.make_move((2, 3)));
    let board_text = board_to_string(game.get_board());
    let status_text = status_to_string(game.get_status());
    let restored = string_to_game(board_text.clone(), status_text);
    assert_eq!(restored.get_status(), game.get_status());
    assert_eq!(restored.get_board(), game.get_board());
    assert_eq!(restored.get_score(), game.get_score());
    assert_eq!(board_to_string(restored.get_board()), board_text);
}

#[test]
fn decoding_builds_the_stated_position() {
    let mut text = String::new();
    text.push('O');
    text.push('X');
    for _ in 2..64 {
        text.push('.');
    }
    let game = string_to_game(text, "X".to_string());
    assert_eq!(game.get_status(), Status::Running { next_player: Player::Dark });
    assert_eq!(game.get_cell((0, 0)), Cell::Taken { player: Player::Light });
    assert_eq!(game.get_cell((0, 1)), Cell::Taken { player: Player::Dark });
    assert_eq!(game.get_cell((5, 5)), Cell::Empty);
    assert_eq!(game.get_score(), (1, 1));
}

#[test]
fn move_input_parses_rows_and_columns() {
    assert_eq!(parse_move_input("3d"), (2, 3));
    assert_eq!(parse_move_input("d3"), (2, 3));
    assert_eq!(parse_move_input("D3"), (2, 3));
    assert_eq!(parse_move_input("1a"), (0, 0));
    assert_eq!(parse_move_input("8h"), (7, 7));
    assert_eq!(parse_move_input(" 4 c "), (3, 2));
    // The last digit and letter win; anything else changes nothing.
    assert_eq!(parse_move_input("3d5f"), (4, 5));
    assert_eq!(parse_move_input(""), (9, 9));
    assert_eq!(parse_move_input("??"), (9, 9));
}

#[test]
fn human_and_external_opponents_defer_to_the_caller() {
    let game = Game::new();
    assert_eq!(Opponent::Human.make_move(&game), None);
    let external = Opponent::ExternalAi { ai_path: "reversi-ai".to_string() };
    assert_eq!(external.make_move(&game), None);
}

#[test]
fn ai_opponents_answer_with_a_legal_move() {
    let game = Game::new();
    let opening = [(2, 3), (3, 2), (4, 5), (5, 4)];
    let opponent = Opponent::Ai { player: AiPlayer::Weak };
    let coord = opponent.make_move(&game).expect("an AI must move");
    assert!(opening.contains(&coord));
    assert!(game.check_move(coord));
    let direct = AiPlayer::Weak.make_move(&game);
    assert!(opening.contains(&direct));
}

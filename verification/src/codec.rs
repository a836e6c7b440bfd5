//! Text encoding of games, for talking to an out-of-process opponent:
//! a board is 64 characters in row-major order, a status one character.

use vstd::prelude::*;

use crate::game::{Board, Cell, Game, Player, Status};

verus! {

/// The character that encodes one cell: 'O' a Light disk, 'X' a Dark
/// disk, '.' an empty cell.
pub open spec fn cell_char(c: Cell) -> char {
    match c {
        Cell::Empty => '.',
        Cell::Taken { player: Player::Light } => 'O',
        Cell::Taken { player: Player::Dark } => 'X',
    }
}

/// The character that encodes a status: 'O' Light to move, 'X' Dark to
/// move, '.' an ended game.
pub open spec fn status_char(s: Status) -> char {
    match s {
        Status::Running { next_player: Player::Light } => 'O',
        Status::Running { next_player: Player::Dark } => 'X',
        Status::Ended => '.',
    }
}

/// The cell a valid character decodes to.
pub open spec fn char_cell(ch: char) -> Cell {
    if ch == 'O' {
        Cell::Taken { player: Player::Light }
    } else if ch == 'X' {
        Cell::Taken { player: Player::Dark }
    } else {
        Cell::Empty
    }
}

/// The status a valid character decodes to.
pub open spec fn char_status(ch: char) -> Status {
    if ch == 'O' {
        Status::Running { next_player: Player::Light }
    } else if ch == 'X' {
        Status::Running { next_player: Player::Dark }
    } else {
        Status::Ended
    }
}

/// Whether a character is one of the three cell encodings.
pub open spec fn valid_cell_char(ch: char) -> bool {
    ch == 'O' || ch == 'X' || ch == '.'
}

/// Relies on String::push: it appends the given character to the string.
#[verifier::external_body]
fn push_char(s: &mut String, c: char)
    ensures
        final(s)@ == old(s)@.push(c),
{
    s.push(c)
}

/// Encode a status as a one-character string.
pub fn status_to_string(status: Status) -> (r: String)
    ensures
        r@.len() == 1,
        r@[0] == status_char(status),
{
    let mut s = String::new();
    let c = match status {
        Status::Running { next_player: Player::Light } => 'O',
        Status::Running { next_player: Player::Dark } => 'X',
        Status::Ended => '.',
    };
    push_char(&mut s, c);
    s
}

/// Encode a board as a 64-character string in row-major order.
pub fn board_to_string(board: Board) -> (r: String)
    requires
        board@.len() == 64,
    ensures
        r@.len() == 64,
        forall|i: int| 0 <= i < 64 ==> r@[i] == cell_char(#[trigger] board@[i]),
{
    let mut s = String::new();
    let mut i: usize = 0;
    while i < 64
        invariant
            board@.len() == 64,
            i <= 64,
            s@.len() == i,
            forall|j: int| 0 <= j < i ==> s@[j] == cell_char(#[trigger] board@[j]),
        decreases 64 - i,
    {
        let c = match board[i] {
            Cell::Empty => '.',
            Cell::Taken { player: Player::Light } => 'O',
            Cell::Taken { player: Player::Dark } => 'X',
        };
        push_char(&mut s, c);
        i += 1;
    }
    s
}

/// Decode a board string and a status string, encoded as
/// `board_to_string` and `status_to_string` produce them, into a game.
pub fn string_to_game(board_string: String, status_string: String) -> (g: Game)
    requires
        board_string@.len() >= 64,
        status_string@.len() >= 1,
        valid_cell_char(status_string@[0]),
        forall|i: int| 0 <= i < 64 ==> valid_cell_char(#[trigger] board_string@[i]),
    ensures
        g.wf(),
        g.status == char_status(status_string@[0]),
        forall|i: int| 0 <= i < 64 ==> g.board@[i] == char_cell(#[trigger] board_string@[i]),
{
    let status_ch = status_string.as_str().get_char(0);
    let status = if status_ch == 'O' {
        Status::Running { next_player: Player::Light }
    } else if status_ch == 'X' {
        Status::Running { next_player: Player::Dark }
    } else {
        Status::Ended
    };
    let mut board: Board = Vec::new();
    let mut i: usize = 0;
    while i < 64
        invariant
            board_string@.len() >= 64,
            forall|j: int| 0 <= j < 64 ==> valid_cell_char(#[trigger] board_string@[j]),
            i <= 64,
            board@.len() == i,
            forall|j: int| 0 <= j < i ==> board@[j] == char_cell(#[trigger] board_string@[j]),
        decreases 64 - i,
    {
        let ch = board_string.as_str().get_char(i);
        let cell = if ch == 'O' {
            Cell::Taken { player: Player::Light }
        } else if ch == 'X' {
            Cell::Taken { player: Player::Dark }
        } else {
            Cell::Empty
        };
        board.push(cell);
        i += 1;
    }
    Game::new_custom_game(status, board)
}

} // verus!

//! The kinds of opponent a match can be played against, the strength
//! levels of the automated one, and the parsing of a player's typed
//! input into commands and coordinates.

use vstd::prelude::*;

use crate::game::{status_consistent, Game};
use crate::search::{chosen_move_ok, make_move, SearchConfig};

verus! {

/// The type of human players; its moves come from the caller's input
/// loop, parsed by `parse_move_input`.
pub struct HumanPlayer;

/// What a player may ask for besides a move.
pub enum OtherAction {
    Help,
    Quit,
}

/// Everything a user can ask of the menus.
pub enum UserCommand {
    NewGame,
    HumanPlayer,
    AiWeak,
    AiMedium,
    AiStrong,
    Help,
    Credits,
    Quit,
}

/// The strength levels of the automated opponent.
#[derive(Clone, Copy, PartialEq, Eq, Structural, Debug)]
pub enum AiPlayer {
    Weak,
    Medium,
    Strong,
}

/// The search parameters each strength level stands for.
pub open spec fn spec_config(a: AiPlayer) -> SearchConfig {
    match a {
        AiPlayer::Weak => (SearchConfig {
            minimum_depth: 2,
            time_limit_ns: 100_000_000,
            endgame_threshold: 7,
            randomness_tolerance: 0,
        }),
        AiPlayer::Medium => (SearchConfig {
            minimum_depth: 5,
            time_limit_ns: 500_000_000,
            endgame_threshold: 10,
            randomness_tolerance: 0,
        }),
        AiPlayer::Strong => (SearchConfig {
            minimum_depth: 6,
            time_limit_ns: 1_000_000_000,
            endgame_threshold: 13,
            randomness_tolerance: 1,
        }),
    }
}

impl AiPlayer {
    /// The search parameters of this strength level: a deeper minimum,
    /// a longer clock and an earlier exact end-game for the stronger
    /// settings.
    pub fn config(&self) -> (r: SearchConfig)
        ensures
            r == spec_config(*self),
    {
        match *self {
            AiPlayer::Weak => SearchConfig {
                minimum_depth: 2,
                time_limit_ns: 100_000_000,
                endgame_threshold: 7,
                randomness_tolerance: 0,
            },
            AiPlayer::Medium => SearchConfig {
                minimum_depth: 5,
                time_limit_ns: 500_000_000,
                endgame_threshold: 10,
                randomness_tolerance: 0,
            },
            AiPlayer::Strong => SearchConfig {
                minimum_depth: 6,
                time_limit_ns: 1_000_000_000,
                endgame_threshold: 13,
                randomness_tolerance: 1,
            },
        }
    }

    /// Run the search with this level's parameters and return its move.
    pub fn make_move(&self, game: &Game) -> (r: (usize, usize))
        requires
            game.wf(),
            game.status is Running,
            status_consistent(game.board@, game.status),
        ensures
            chosen_move_ok(*game, spec_config(*self), r),
    {
        let config = self.config();
        make_move(game, &config)
    }
}

/// The kinds of player who can take part in a match. The automated kind
/// computes its move here; the interactive kinds are answered by the
/// caller, from the keyboard or from another process.
pub enum Opponent {
    Human,
    ExternalAi { ai_path: String },
    Ai { player: AiPlayer },
}

impl Opponent {
    /// The move of an automated opponent, or nothing where the move must
    /// come from outside the library.
    pub fn make_move(&self, game: &Game) -> (r: Option<(usize, usize)>)
        requires
            game.wf(),
            game.status is Running,
            status_consistent(game.board@, game.status),
        ensures
            (r is Some) == (self is Ai),
            self matches Opponent::Ai { player } ==> (r matches Some(m) && chosen_move_ok(
                *game,
                spec_config(*player),
                m,
            )),
    {
        match self {
            Opponent::Human => None,
            Opponent::ExternalAi { .. } => None,
            Opponent::Ai { player } => Some(player.make_move(game)),
        }
    }
}

/// One keystroke's effect on a half-typed coordinate: the digits 1 to 9
/// name a row, a letter names a column, and any other character leaves
/// the pair as it stands.
pub open spec fn parse_step(acc: (usize, usize), c: char) -> (usize, usize) {
    let v = c as u32;
    if '1' as u32 <= v && v <= '9' as u32 {
        ((v - '1' as u32) as usize, acc.1)
    } else if 'a' as u32 <= v && v <= 'z' as u32 {
        (acc.0, (v - 'a' as u32) as usize)
    } else if 'A' as u32 <= v && v <= 'Z' as u32 {
        (acc.0, (v - 'A' as u32) as usize)
    } else {
        acc
    }
}

/// The coordinate a whole input line parses to, folding `parse_step`
/// over its characters.
pub open spec fn parsed_coord(s: Seq<char>, i: int, acc: (usize, usize)) -> (usize, usize)
    decreases s.len() - i,
{
    if i < 0 || i >= s.len() {
        acc
    } else {
        parsed_coord(s, i + 1, parse_step(acc, s[i]))
    }
}

/// Read a move from a typed line: the last digit names the row (1-based),
/// the last letter the column ('a' first); anything else is ignored. An
/// unnamed row or column stays off the board, so the caller's legality
/// check rejects it.
pub fn parse_move_input(line: &str) -> (r: (usize, usize))
    ensures
        r == parsed_coord(line@, 0, (9usize, 9usize)),
{
    let n = line.unicode_len();
    let mut acc: (usize, usize) = (9, 9);
    let mut i: usize = 0;
    while i < n
        invariant
            n == line@.len(),
            i <= n,
            parsed_coord(line@, 0, (9usize, 9usize)) == parsed_coord(line@, i as int, acc),
        decreases n - i,
    {
        let c = line.get_char(i);
        let v = c as u32;
        if '1' as u32 <= v && v <= '9' as u32 {
            acc = ((v - '1' as u32) as usize, acc.1);
        } else if 'a' as u32 <= v && v <= 'z' as u32 {
            acc = (acc.0, (v - 'a' as u32) as usize);
        } else if 'A' as u32 <= v && v <= 'Z' as u32 {
            acc = (acc.0, (v - 'A' as u32) as usize);
        }
        i += 1;
    }
    acc
}

} // verus!

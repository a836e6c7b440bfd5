//! The static positional evaluator used at search cutoff: corner
//! occupancy, stable walls beside owned corners, and the danger of
//! sitting next to an open corner. Positive values favour Light.

use vstd::prelude::*;

use crate::game::{Cell, Game, Player};

verus! {

/// The stable-wall bonus beside an owned corner: the adjacent edge cell
/// counts, and the one beyond it counts only behind the first.
pub open spec fn wall_bonus(cells: Seq<Cell>, p: Player, odd: int, even: int) -> int {
    if cells[odd] == (Cell::Taken { player: p }) {
        3 + if cells[even] == (Cell::Taken { player: p }) {
            3int
        } else {
            0int
        }
    } else {
        0
    }
}

/// The value of one edge pair beside an open corner: occupying the cell
/// adjacent to the corner is exploitable (a malus to the occupier), the
/// cell one step further is mildly good.
pub open spec fn edge_pair(cells: Seq<Cell>, odd: int, even: int) -> int {
    match cells[odd] {
        Cell::Taken { player } => if player == Player::Light {
            -7int
        } else {
            7int
        },
        Cell::Empty => match cells[even] {
            Cell::Taken { player } => if player == Player::Light {
                3int
            } else {
                -3int
            },
            Cell::Empty => 0int,
        },
    }
}

/// The value of the diagonal pair beside an open corner, weighted more
/// heavily than the edge pairs.
pub open spec fn inner_pair(cells: Seq<Cell>, oddc: int, evenc: int) -> int {
    match cells[oddc] {
        Cell::Taken { player } => if player == Player::Light {
            -20int
        } else {
            20int
        },
        Cell::Empty => match cells[evenc] {
            Cell::Taken { player } => if player == Player::Light {
                10int
            } else {
                -10int
            },
            Cell::Empty => 0int,
        },
    }
}

/// The value of one corner region, given the flat indices of its seven
/// cells: the corner, its two edge pairs, and its diagonal pair.
pub open spec fn region_score(
    cells: Seq<Cell>,
    corner: int,
    odd: int,
    oddc: int,
    even: int,
    evenc: int,
    codd: int,
    ceven: int,
) -> int {
    match cells[corner] {
        Cell::Taken { player } => {
            let v = 50 + wall_bonus(cells, player, odd, even) + wall_bonus(
                cells,
                player,
                codd,
                ceven,
            );
            if player == Player::Light {
                v
            } else {
                -v
            }
        },
        Cell::Empty => edge_pair(cells, odd, even) + edge_pair(cells, codd, ceven) + inner_pair(
            cells,
            oddc,
            evenc,
        ),
    }
}

/// The whole positional score: the sum of the four corner regions, in
/// Light-positive convention.
pub open spec fn heuristic(cells: Seq<Cell>) -> int {
    region_score(cells, 0, 1, 9, 2, 18, 8, 16) + region_score(cells, 7, 15, 14, 23, 21, 6, 5)
        + region_score(cells, 56, 48, 49, 40, 42, 57, 58) + region_score(
        cells,
        63,
        55,
        54,
        47,
        45,
        62,
        61,
    )
}

/// One region's score is small.
pub proof fn lemma_region_bounds(
    cells: Seq<Cell>,
    corner: int,
    odd: int,
    oddc: int,
    even: int,
    evenc: int,
    codd: int,
    ceven: int,
)
    ensures
        -62 <= region_score(cells, corner, odd, oddc, even, evenc, codd, ceven) <= 62,
{
}

/// The positional score is small: far inside the band that terminal
/// scores never enter.
pub proof fn lemma_heuristic_bounds(cells: Seq<Cell>)
    ensures
        -248 <= heuristic(cells) <= 248,
{
    lemma_region_bounds(cells, 0, 1, 9, 2, 18, 8, 16);
    lemma_region_bounds(cells, 7, 15, 14, 23, 21, 6, 5);
    lemma_region_bounds(cells, 56, 48, 49, 40, 42, 57, 58);
    lemma_region_bounds(cells, 63, 55, 54, 47, 45, 62, 61);
}

/// Evaluate one corner region of the board.
fn region_eval(
    game: &Game,
    corner: usize,
    odd: usize,
    oddc: usize,
    even: usize,
    evenc: usize,
    codd: usize,
    ceven: usize,
) -> (r: i16)
    requires
        game.len_ok(),
        corner < 64,
        odd < 64,
        oddc < 64,
        even < 64,
        evenc < 64,
        codd < 64,
        ceven < 64,
    ensures
        r == region_score(
            game.board@,
            corner as int,
            odd as int,
            oddc as int,
            even as int,
            evenc as int,
            codd as int,
            ceven as int,
        ),
        -62 <= r <= 62,
{
    let mut score: i16 = 0;
    match game.board[corner] {
        Cell::Taken { player } => {
            let mut v: i16 = 50;
            match game.board[odd] {
                Cell::Taken { player: q } if q == player => {
                    v += 3;
                    match game.board[even] {
                        Cell::Taken { player: q2 } if q2 == player => {
                            v += 3;
                        },
                        _ => {},
                    }
                },
                _ => {},
            }
            match game.board[codd] {
                Cell::Taken { player: q } if q == player => {
                    v += 3;
                    match game.board[ceven] {
                        Cell::Taken { player: q2 } if q2 == player => {
                            v += 3;
                        },
                        _ => {},
                    }
                },
                _ => {},
            }
            score = if matches!(player, Player::Light) {
                v
            } else {
                -v
            };
        },
        Cell::Empty => {
            match game.board[odd] {
                Cell::Taken { player } => {
                    score += if matches!(player, Player::Light) {
                        -7
                    } else {
                        7
                    };
                },
                Cell::Empty => {
                    match game.board[even] {
                        Cell::Taken { player } => {
                            score += if matches!(player, Player::Light) {
                                3
                            } else {
                                -3
                            };
                        },
                        Cell::Empty => {},
                    }
                },
            }
            match game.board[codd] {
                Cell::Taken { player } => {
                    score += if matches!(player, Player::Light) {
                        -7
                    } else {
                        7
                    };
                },
                Cell::Empty => {
                    match game.board[ceven] {
                        Cell::Taken { player } => {
                            score += if matches!(player, Player::Light) {
                                3
                            } else {
                                -3
                            };
                        },
                        Cell::Empty => {},
                    }
                },
            }
            match game.board[oddc] {
                Cell::Taken { player } => {
                    score += if matches!(player, Player::Light) {
                        -20
                    } else {
                        20
                    };
                },
                Cell::Empty => {
                    match game.board[evenc] {
                        Cell::Taken { player } => {
                            score += if matches!(player, Player::Light) {
                                10
                            } else {
                                -10
                            };
                        },
                        Cell::Empty => {},
                    }
                },
            }
        },
    }
    score
}

/// The static positional score of a position, in Light-positive
/// convention; cheap enough to run at every leaf of a deep search tree.
pub fn heavy_eval(game: &Game) -> (r: i16)
    requires
        game.len_ok(),
    ensures
        r == heuristic(game.board@),
        -248 <= r <= 248,
{
    let a = region_eval(game, 0, 1, 9, 2, 18, 8, 16);
    let b = region_eval(game, 7, 15, 14, 23, 21, 6, 5);
    let c = region_eval(game, 56, 48, 49, 40, 42, 57, 58);
    let d = region_eval(game, 63, 55, 54, 47, 45, 62, 61);
    a + b + c + d
}

} // verus!

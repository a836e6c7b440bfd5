//! The search engine: depth-limited minimax over the rules engine, with
//! a parallel fan-out across root moves, iterative deepening under a
//! wall-clock budget, an exact end-game mode, and a forced-move shortcut.

use vstd::prelude::*;

use crate::game::{
    apply_cells, count_of, has_move, legal_cell, legal_seq, legal_seq_upto, next_status,
    status_consistent, Cell, Game, Player, Status,
};
use crate::heuristic::{heavy_eval, heuristic, lemma_heuristic_bounds};
use crate::score::{score_gt, score_gt_tol, Score};
use rayon::iter::{IntoParallelRefIterator, ParallelIterator};

verus! {

/// The exact disk difference, Light minus Dark.
pub open spec fn score_diff(cells: Seq<Cell>) -> int {
    count_of(cells, Player::Light) - count_of(cells, Player::Dark)
}

/// The score of a position at search cutoff: the positional evaluation
/// plus a small tempo bonus in the mover's favour.
pub open spec fn leaf_score(cells: Seq<Cell>, p: Player) -> Score {
    Score::Running(
        (heuristic(cells) + if p == Player::Light {
            3int
        } else {
            -3int
        }) as i16,
    )
}

/// Fold a child's score into the best seen so far: the first strictly
/// better candidate replaces it, so ties keep the earlier child.
pub open spec fn step_score(acc: Option<Score>, v: Score, p: Player) -> Score {
    match acc {
        Option::None => v,
        Option::Some(b) => if p == Player::Light {
            if score_gt(v, b) {
                v
            } else {
                b
            }
        } else {
            if score_gt(b, v) {
                v
            } else {
                b
            }
        },
    }
}

/// The extremal child value over the cells from position `i` on, in
/// row-major order: each legal move's successor is searched one level
/// shallower and folded into the accumulator.
pub open spec fn best_child(
    cells: Seq<Cell>,
    p: Player,
    depth: int,
    i: int,
    acc: Option<Score>,
) -> Option<Score>
    decreases depth, 64 - i,
{
    if i < 0 || i >= 64 || depth <= 0 {
        acc
    } else {
        let row = i / 8;
        let col = i % 8;
        let acc2 = if legal_cell(cells, p, row, col) {
            let nc = apply_cells(cells, p, row, col);
            Some(step_score(acc, spec_minimax(nc, next_status(nc, p), depth - 1), p))
        } else {
            acc
        };
        best_child(cells, p, depth, i + 1, acc2)
    }
}

/// The minimax value of a position at the given depth: the exact disk
/// difference of a finished game, the leaf evaluation at cutoff, and
/// otherwise the extremal child value for the side to move.
pub open spec fn spec_minimax(cells: Seq<Cell>, status: Status, depth: int) -> Score
    decreases depth, 65int,
{
    match status {
        Status::Ended => Score::Ended(score_diff(cells) as i16),
        Status::Running { next_player: p } => {
            if depth <= 0 {
                leaf_score(cells, p)
            } else {
                match best_child(cells, p, depth, 0, None) {
                    Some(s) => s,
                    None => Score::Ended(score_diff(cells) as i16),
                }
            }
        },
    }
}

/// A fold that has already seen a child never comes back empty.
proof fn lemma_best_child_keeps_some(
    cells: Seq<Cell>,
    p: Player,
    depth: int,
    i: int,
    s: Score,
)
    ensures
        best_child(cells, p, depth, i, Some(s)) is Some,
    decreases 64 - i,
{
    if 0 <= i < 64 && depth > 0 {
        let row = i / 8;
        let col = i % 8;
        if legal_cell(cells, p, row, col) {
            let nc = apply_cells(cells, p, row, col);
            lemma_best_child_keeps_some(
                cells,
                p,
                depth,
                i + 1,
                step_score(Some(s), spec_minimax(nc, next_status(nc, p), depth - 1), p),
            );
        } else {
            lemma_best_child_keeps_some(cells, p, depth, i + 1, s);
        }
    }
}

/// A fold that still has a legal cell ahead of it returns a value.
proof fn lemma_best_child_reaches(
    cells: Seq<Cell>,
    p: Player,
    depth: int,
    i: int,
    acc: Option<Score>,
    j: int,
)
    requires
        0 <= i <= j < 64,
        depth >= 1,
        legal_cell(cells, p, j / 8, j % 8),
    ensures
        best_child(cells, p, depth, i, acc) is Some,
    decreases 64 - i,
{
    let row = i / 8;
    let col = i % 8;
    if legal_cell(cells, p, row, col) {
        let nc = apply_cells(cells, p, row, col);
        let acc2 = Some(step_score(acc, spec_minimax(nc, next_status(nc, p), depth - 1), p));
        if i < j {
            lemma_best_child_keeps_some(
                cells,
                p,
                depth,
                i + 1,
                step_score(acc, spec_minimax(nc, next_status(nc, p), depth - 1), p),
            );
        } else {
            lemma_best_child_keeps_some(
                cells,
                p,
                depth,
                i + 1,
                step_score(acc, spec_minimax(nc, next_status(nc, p), depth - 1), p),
            );
        }
    } else {
        assert(i < j);
        lemma_best_child_reaches(cells, p, depth, i + 1, acc, j);
    }
}

/// A side with a move always yields a searched value: the child fold of
/// a running, consistent position is never empty.
pub proof fn lemma_minimax_searches(cells: Seq<Cell>, p: Player, depth: int)
    requires
        depth >= 1,
        has_move(cells, p),
    ensures
        best_child(cells, p, depth, 0, None) is Some,
{
    let (row, col) = choose|row: int, col: int| legal_cell(cells, p, row, col);
    let j = row * 8 + col;
    assert(j / 8 == row && j % 8 == col) by (nonlinear_arith)
        requires
            0 <= row < 8,
            0 <= col < 8,
            j == row * 8 + col,
    ;
    assert(0 <= j < 64);
    lemma_best_child_reaches(cells, p, depth, 0, None, j);
}

/// The recursive minimax evaluation of a position: exact on finished
/// games, the leaf evaluation at depth zero, and otherwise the extremal
/// child value for the side to move, one level shallower per child.
pub fn eval(game: &Game, depth: u8) -> (r: Score)
    requires
        game.wf(),
        status_consistent(game.board@, game.status),
    ensures
        r == spec_minimax(game.board@, game.status, depth as int),
    decreases depth,
{
    let p = match game.get_status() {
        Status::Ended => {
            proof {
                crate::game::lemma_count_bounds(game.board@, Player::Light, 64);
                crate::game::lemma_count_bounds(game.board@, Player::Dark, 64);
                crate::game::lemma_count_sum_bound(game.board@, 64);
            }
            return Score::Ended(game.get_score_diff());
        },
        Status::Running { next_player } => next_player,
    };
    if depth == 0 {
        proof {
            lemma_heuristic_bounds(game.board@);
        }
        let h = heavy_eval(game);
        let bonus: i16 = match p {
            Player::Light => 3,
            Player::Dark => -3,
        };
        return Score::Running(h + bonus);
    }
    let mut acc: Option<Score> = None;
    let mut i: usize = 0;
    while i < 64
        invariant
            game.wf(),
            status_consistent(game.board@, game.status),
            game.status == (Status::Running { next_player: p }),
            depth >= 1,
            i <= 64,
            best_child(game.board@, p, depth as int, 0, None) == best_child(
                game.board@,
                p,
                depth as int,
                i as int,
                acc,
            ),
        decreases 64 - i,
    {
        let row = i / 8;
        let col = i % 8;
        if game.check_move((row, col)) {
            let mut child = game.clone();
            let moved = child.make_move((row, col));
            proof {
                assert(moved);
            }
            let v = eval(&child, depth - 1);
            acc = match acc {
                Option::None => Some(v),
                Option::Some(b) => {
                    let keep_new = match p {
                        Player::Light => v.is_better_than(&b),
                        Player::Dark => b.is_better_than(&v),
                    };
                    if keep_new {
                        Some(v)
                    } else {
                        Some(b)
                    }
                },
            };
        }
        i += 1;
    }
    match acc {
        Option::Some(s) => s,
        Option::None => {
            proof {
                lemma_minimax_searches(game.board@, p, depth as int);
                assert(false);
            }
            Score::Ended(0)
        },
    }
}

/// The position reached by one move: the successor board and status.
pub open spec fn succ_cells(g: Game, coord: (usize, usize)) -> Seq<Cell> {
    apply_cells(g.board@, g.spec_mover(), coord.0 as int, coord.1 as int)
}

/// The minimax value of the position one move ahead, searched `depth`
/// levels deep.
pub open spec fn child_score(g: Game, coord: (usize, usize), depth: int) -> Score {
    spec_minimax(
        succ_cells(g, coord),
        next_status(succ_cells(g, coord), g.spec_mover()),
        depth,
    )
}

/// The best root move from position `t` of the legal move list on: each
/// move's child value, one level shallower, folded left to right; the
/// first strictly better candidate replaces the best, so ties keep the
/// earliest move in row-major order.
pub open spec fn select_best(
    g: Game,
    depth: int,
    tol: int,
    t: int,
    acc: Option<((usize, usize), Score)>,
) -> Option<((usize, usize), Score)>
    decreases legal_seq(g).len() - t,
{
    if t < 0 || t >= legal_seq(g).len() {
        acc
    } else {
        let m = legal_seq(g)[t];
        let v = child_score(g, m, depth - 1);
        let acc2 = match acc {
            Option::None => Some((m, v)),
            Option::Some(b) => if g.spec_mover() == Player::Light {
                if score_gt_tol(v, b.1, tol) {
                    Some((m, v))
                } else {
                    Some(b)
                }
            } else {
                if score_gt_tol(b.1, v, tol) {
                    Some((m, v))
                } else {
                    Some(b)
                }
            },
        };
        select_best(g, depth, tol, t + 1, acc2)
    }
}

/// The move the search selects at a given depth, with its score; empty
/// only if the position has no legal move.
pub open spec fn spec_best_move(g: Game, depth: int, tol: int) -> Option<((usize, usize), Score)> {
    select_best(g, depth, tol, 0, None)
}

/// Every entry of the legal move list is a legal move.
pub proof fn lemma_legal_seq_members(g: Game, n: int)
    requires
        0 <= n <= 64,
    ensures
        forall|t: int|
            0 <= t < legal_seq_upto(g, n).len() ==> g.spec_legal(
                #[trigger] legal_seq_upto(g, n)[t],
            ),
    decreases n,
{
    if n > 0 {
        lemma_legal_seq_members(g, n - 1);
        let prev = legal_seq_upto(g, n - 1);
        let cur = legal_seq_upto(g, n);
        assert forall|t: int| 0 <= t < cur.len() implies g.spec_legal(cur[t]) by {
            if t < prev.len() {
                assert(cur[t] == prev[t]);
            }
        }
    }
}

/// The legal move list only grows as the scan advances.
proof fn lemma_legal_seq_len_mono(g: Game, n1: int, n2: int)
    requires
        n1 <= n2,
    ensures
        legal_seq_upto(g, n1).len() <= legal_seq_upto(g, n2).len(),
    decreases n2 - n1,
{
    if n1 < n2 {
        lemma_legal_seq_len_mono(g, n1, n2 - 1);
    }
}

/// A running, consistent position has a non-empty legal move list.
pub proof fn lemma_legal_seq_nonempty(g: Game)
    requires
        g.len_ok(),
        g.status is Running,
        status_consistent(g.board@, g.status),
    ensures
        legal_seq(g).len() >= 1,
{
    let p = g.spec_mover();
    let (row, col) = choose|row: int, col: int| legal_cell(g.board@, p, row, col);
    let j = row * 8 + col;
    assert(j / 8 == row && j % 8 == col) by (nonlinear_arith)
        requires
            0 <= row < 8,
            0 <= col < 8,
            j == row * 8 + col,
    ;
    assert(g.spec_legal(((j / 8) as usize, (j % 8) as usize)));
    assert(legal_seq_upto(g, j + 1).len() >= 1);
    lemma_legal_seq_len_mono(g, j + 1, 64);
}

/// The fold over the tail of the move list never loses a chosen pair.
proof fn lemma_select_keeps_some(
    g: Game,
    depth: int,
    tol: int,
    t: int,
    b: ((usize, usize), Score),
)
    ensures
        select_best(g, depth, tol, t, Some(b)) is Some,
    decreases legal_seq(g).len() - t,
{
    if 0 <= t < legal_seq(g).len() {
        let m = legal_seq(g)[t];
        let v = child_score(g, m, depth - 1);
        if g.spec_mover() == Player::Light {
            if score_gt_tol(v, b.1, tol) {
                lemma_select_keeps_some(g, depth, tol, t + 1, (m, v));
            } else {
                lemma_select_keeps_some(g, depth, tol, t + 1, b);
            }
        } else {
            if score_gt_tol(b.1, v, tol) {
                lemma_select_keeps_some(g, depth, tol, t + 1, (m, v));
            } else {
                lemma_select_keeps_some(g, depth, tol, t + 1, b);
            }
        }
    }
}

/// The chosen pair always names a move from the legal move list.
proof fn lemma_select_move_legal(
    g: Game,
    depth: int,
    tol: int,
    t: int,
    acc: Option<((usize, usize), Score)>,
)
    requires
        0 <= t,
        acc matches Some(b) ==> g.spec_legal(b.0),
        select_best(g, depth, tol, t, acc) is Some,
    ensures
        g.spec_legal(select_best(g, depth, tol, t, acc)->Some_0.0),
    decreases legal_seq(g).len() - t,
{
    if t < legal_seq(g).len() {
        lemma_legal_seq_members(g, 64);
        let m = legal_seq(g)[t];
        let v = child_score(g, m, depth - 1);
        let acc2 = match acc {
            Option::None => Some((m, v)),
            Option::Some(b) => if g.spec_mover() == Player::Light {
                if score_gt_tol(v, b.1, tol) {
                    Some((m, v))
                } else {
                    Some(b)
                }
            } else {
                if score_gt_tol(b.1, v, tol) {
                    Some((m, v))
                } else {
                    Some(b)
                }
            },
        };
        lemma_select_move_legal(g, depth, tol, t + 1, acc2);
    }
}

/// Forced-move correctness: where exactly one legal move exists, the
/// search selects it, whatever depth it is asked for.
pub proof fn lemma_forced_move(g: Game, depth: int, tol: int)
    requires
        legal_seq(g).len() == 1,
    ensures
        spec_best_move(g, depth, tol) matches Some(pair) && pair.0 == legal_seq(g)[0],
{
    let m = legal_seq(g)[0];
    let v = child_score(g, m, depth - 1);
    assert(select_best(g, depth, tol, 0, None) == select_best(g, depth, tol, 1, Some((m, v))));
}

/// Evaluate the position reached by one legal move, `depth` levels deep;
/// the parent turn is untouched, each branch works on its own copy.
pub fn eval_after_move(game: &Game, coord: (usize, usize), depth: u8) -> (r: Score)
    requires
        game.wf(),
        game.spec_legal(coord),
    ensures
        r == child_score(*game, coord, depth as int),
{
    let mut child = game.clone();
    let moved = child.make_move(coord);
    proof {
        assert(moved);
    }
    eval(&child, depth)
}

/// Relies on rayon's `par_iter`, `map` and `collect`: an indexed parallel
/// map over the move list that keeps the input order, each task running
/// the verified `eval_after_move` on its own copy of the position.
#[verifier::external_body]
fn par_eval_moves(game: &Game, moves: &Vec<(usize, usize)>, depth: u8) -> (r: Vec<
    ((usize, usize), Score),
>)
    requires
        game.wf(),
        forall|t: int| 0 <= t < moves@.len() ==> game.spec_legal(#[trigger] moves@[t]),
    ensures
        r@.len() == moves@.len(),
        forall|t: int|
            0 <= t < r@.len() ==> (#[trigger] r@[t]).0 == moves@[t] && r@[t].1 == child_score(
                *game,
                moves@[t],
                depth as int,
            ),
{
    moves.par_iter().map(|&coord| (coord, eval_after_move(game, coord, depth))).collect()
}

/// Choose the best root move at a fixed depth: every legal move's
/// successor is evaluated in parallel, and the extremal score for the
/// side to move wins, ties going to the earliest move in row-major
/// order. The result is a function of the position and depth alone.
pub fn find_best_move(game: &Game, depth: u8, tolerance: i16) -> (r: (usize, usize))
    requires
        game.wf(),
        game.status is Running,
        status_consistent(game.board@, game.status),
        depth >= 1,
    ensures
        spec_best_move(*game, depth as int, tolerance as int) matches Some(pair) && r == pair.0,
        game.spec_legal(r),
{
    let moves = game.legal_moves();
    proof {
        lemma_legal_seq_members(*game, 64);
        lemma_legal_seq_nonempty(*game);
    }
    let pairs = par_eval_moves(game, &moves, depth - 1);
    let mut acc: Option<((usize, usize), Score)> = None;
    let mut t: usize = 0;
    while t < pairs.len()
        invariant
            game.wf(),
            game.status is Running,
            moves@ == legal_seq(*game),
            pairs@.len() == moves@.len(),
            forall|u: int|
                0 <= u < pairs@.len() ==> (#[trigger] pairs@[u]).0 == moves@[u] && pairs@[u].1
                    == child_score(*game, moves@[u], depth as int - 1),
            t <= pairs@.len(),
            depth >= 1,
            forall|u: int| 0 <= u < moves@.len() ==> game.spec_legal(#[trigger] moves@[u]),
            acc matches Some(b) ==> game.spec_legal(b.0),
            select_best(*game, depth as int, tolerance as int, 0, None) == select_best(
                *game,
                depth as int,
                tolerance as int,
                t as int,
                acc,
            ),
        decreases pairs@.len() - t,
    {
        let (m, v) = pairs[t];
        acc = match acc {
            Option::None => Some((m, v)),
            Option::Some(b) => {
                let keep_new = match game.get_status() {
                    Status::Running { next_player: Player::Light } => v.beats_within(
                        &b.1,
                        tolerance,
                    ),
                    _ => b.1.beats_within(&v, tolerance),
                };
                if keep_new {
                    Some((m, v))
                } else {
                    Some(b)
                }
            },
        };
        t += 1;
    }
    match acc {
        Option::Some((m, _)) => {
            proof {
                lemma_select_move_legal(
                    *game,
                    depth as int,
                    tolerance as int,
                    pairs@.len() as int,
                    acc,
                );
            }
            m
        },
        Option::None => {
            proof {
                assert(legal_seq(*game).len() >= 1);
                let m0 = legal_seq(*game)[0];
                let v0 = child_score(*game, m0, depth as int - 1);
                lemma_select_keeps_some(*game, depth as int, tolerance as int, 1, (m0, v0));
                assert(false);
            }
            (8, 8)
        },
    }
}

/// The parameters that drive one move computation: the depth searched
/// before the clock is first consulted, the soft wall-clock ceiling, the
/// number of empty cells at which the engine solves the game exactly,
/// and the margin within which a later near-tied move may be preferred.
pub struct SearchConfig {
    pub minimum_depth: u8,
    pub time_limit_ns: u64,
    pub endgame_threshold: u8,
    pub randomness_tolerance: i16,
}

/// Relies on time::precise_time_ns: a clock reading in nanoseconds.
/// Nothing is assumed of the value; the search only compares readings.
#[verifier::external_body]
fn now_ns() -> u64 {
    time::precise_time_ns()
}

/// How many cells of the board are still empty.
pub open spec fn empties(g: Game) -> int {
    64 - count_of(g.board@, Player::Light) - count_of(g.board@, Player::Dark)
}

/// A board with an empty cell holds at most 63 disks.
proof fn lemma_count_sum_with_empty(cells: Seq<Cell>, i: int, n: int)
    requires
        0 <= i,
        cells[i] == Cell::Empty,
    ensures
        crate::game::count_upto(cells, Player::Light, n) + crate::game::count_upto(
            cells,
            Player::Dark,
            n,
        ) <= if i < n {
            n - 1
        } else if n >= 0 {
            n
        } else {
            0
        },
    decreases n,
{
    if n > 0 {
        lemma_count_sum_with_empty(cells, i, n - 1);
    }
}

/// What the engine promises of a chosen move `r`: it is legal; a forced
/// move is taken as it stands; an end-game position is solved exactly,
/// to the full depth of the remaining cells; and otherwise the answer is
/// the best move of some fully completed depth, from the configured
/// minimum up to at most the end of the game.
pub open spec fn chosen_move_ok(g: Game, config: SearchConfig, r: (usize, usize)) -> bool {
    &&& g.spec_legal(r)
    &&& legal_seq(g).len() == 1 ==> r == legal_seq(g)[0]
    &&& legal_seq(g).len() > 1 && empties(g) <= config.endgame_threshold as int ==> (
    spec_best_move(g, empties(g), config.randomness_tolerance as int) matches Some(pair) && r
        == pair.0)
    &&& legal_seq(g).len() > 1 && empties(g) > config.endgame_threshold as int
        ==> exists|d: int|
        {
            &&& config.minimum_depth as int <= d
            &&& d <= if config.minimum_depth as int >= empties(g) {
                config.minimum_depth as int
            } else {
                empties(g)
            }
            &&& (#[trigger] spec_best_move(g, d, config.randomness_tolerance as int))
                matches Some(pair) && r == pair.0
        }
}

/// Select the move to play under a configuration: a forced move
/// is returned at once; near the end of the game the position is solved
/// exactly; otherwise the search deepens iteratively from the configured
/// minimum until the time budget is spent or the depth would pass the
/// end of the game, and the last fully completed depth's answer stands.
pub fn make_move(game: &Game, config: &SearchConfig) -> (r: (usize, usize))
    requires
        game.wf(),
        game.status is Running,
        status_consistent(game.board@, game.status),
        config.minimum_depth >= 1,
    ensures
        chosen_move_ok(*game, *config, r),
{
    let moves = game.legal_moves();
    proof {
        lemma_legal_seq_members(*game, 64);
        lemma_legal_seq_nonempty(*game);
    }
    if moves.len() == 1 {
        return moves[0];
    }
    proof {
        let p = game.spec_mover();
        let (row, col) = choose|row: int, col: int| legal_cell(game.board@, p, row, col);
        lemma_count_sum_with_empty(game.board@, crate::game::cell_index(row, col), 64);
    }
    let turn = game.get_turn();
    let empty_cells: u8 = 64 - turn;
    if empty_cells <= config.endgame_threshold {
        return find_best_move(game, empty_cells, config.randomness_tolerance);
    }
    let start = now_ns();
    let max_depth: u8 = if empty_cells > config.minimum_depth {
        empty_cells
    } else {
        config.minimum_depth
    };
    let mut depth: u8 = config.minimum_depth;
    let mut best = find_best_move(game, depth, config.randomness_tolerance);
    while depth < max_depth
        invariant
            game.wf(),
            game.status is Running,
            status_consistent(game.board@, game.status),
            config.minimum_depth >= 1,
            config.minimum_depth <= depth <= max_depth,
            max_depth as int == if config.minimum_depth as int >= empties(*game) {
                config.minimum_depth as int
            } else {
                empties(*game)
            },
            spec_best_move(*game, depth as int, config.randomness_tolerance as int)
                matches Some(pair) && best == pair.0,
            game.spec_legal(best),
        decreases max_depth - depth,
    {
        let now = now_ns();
        let elapsed = if now >= start {
            now - start
        } else {
            0
        };
        if elapsed >= config.time_limit_ns {
            break;
        }
        depth += 1;
        best = find_best_move(game, depth, config.randomness_tolerance);
    }
    best
}

/// Whether every board of the list holds a disk of `p` at cell `i`.
pub open spec fn all_have(boards: Seq<crate::game::Board>, p: Player, i: int) -> bool {
    forall|t: int| 0 <= t < boards.len() ==> #[trigger] boards[t]@[i] == (Cell::Taken { player: p })
}

/// The cell the boards of a list agree on: a disk owned by the same side
/// everywhere, or empty where they disagree. An empty list yields an
/// empty cell.
pub open spec fn common_cell(boards: Seq<crate::game::Board>, i: int) -> Cell {
    if boards.len() > 0 && all_have(boards, Player::Light, i) {
        Cell::Taken { player: Player::Light }
    } else if boards.len() > 0 && all_have(boards, Player::Dark, i) {
        Cell::Taken { player: Player::Dark }
    } else {
        Cell::Empty
    }
}

/// Intersect the boards that several search branches lead to: a cell
/// keeps a disk only if every branch agrees on it, a proxy for disks
/// that are already settled, and the disk difference of that common
/// ground is returned beside it.
pub fn board_intersec(boards: &Vec<crate::game::Board>) -> (r: (crate::game::Board, i16))
    requires
        forall|t: int| 0 <= t < boards@.len() ==> (#[trigger] boards@[t])@.len() == 64,
    ensures
        r.0@.len() == 64,
        forall|i: int| 0 <= i < 64 ==> r.0@[i] == common_cell(boards@, i),
        r.1 == score_diff(r.0@),
{
    let mut inter: crate::game::Board = Vec::new();
    let mut i: usize = 0;
    while i < 64
        invariant
            forall|t: int| 0 <= t < boards@.len() ==> (#[trigger] boards@[t])@.len() == 64,
            i <= 64,
            inter@.len() == i,
            forall|j: int| 0 <= j < i ==> inter@[j] == common_cell(boards@, j),
        decreases 64 - i,
    {
        let mut cell = Cell::Empty;
        if boards.len() > 0 {
            match boards[0][i] {
                Cell::Taken { player } => {
                    let mut everywhere = true;
                    let mut t: usize = 1;
                    while t < boards.len()
                        invariant
                            forall|u: int|
                                0 <= u < boards@.len() ==> (#[trigger] boards@[u])@.len() == 64,
                            i < 64,
                            1 <= t <= boards@.len(),
                            boards@.len() > 0,
                            boards@[0]@[i as int] == (Cell::Taken { player }),
                            everywhere == forall|u: int|
                                0 <= u < t ==> #[trigger] boards@[u]@[i as int] == (Cell::Taken {
                                    player,
                                }),
                        decreases boards@.len() - t,
                    {
                        match boards[t][i] {
                            Cell::Taken { player: q } if q == player => {},
                            _ => {
                                everywhere = false;
                            },
                        }
                        t += 1;
                    }
                    if everywhere {
                        cell = Cell::Taken { player };
                    }
                    proof {
                        if everywhere {
                            assert(all_have(boards@, player, i as int));
                        } else {
                            let u = choose|u: int|
                                0 <= u < boards@.len() && #[trigger] boards@[u]@[i as int] != (
                                Cell::Taken { player });
                            match player {
                                Player::Light => {
                                    assert(!all_have(boards@, Player::Light, i as int));
                                    assert(boards@[0]@[i as int] != (Cell::Taken {
                                        player: Player::Dark,
                                    }));
                                    assert(!all_have(boards@, Player::Dark, i as int));
                                },
                                Player::Dark => {
                                    assert(!all_have(boards@, Player::Dark, i as int));
                                    assert(boards@[0]@[i as int] != (Cell::Taken {
                                        player: Player::Light,
                                    }));
                                    assert(!all_have(boards@, Player::Light, i as int));
                                },
                            }
                        }
                    }
                },
                Cell::Empty => {
                    proof {
                        assert(boards@[0]@[i as int] == Cell::Empty);
                        assert(!all_have(boards@, Player::Light, i as int));
                        assert(!all_have(boards@, Player::Dark, i as int));
                    }
                },
            }
        }
        proof {
            assert(cell == common_cell(boards@, i as int));
        }
        inter.push(cell);
        i += 1;
    }
    let mut light: u8 = 0;
    let mut dark: u8 = 0;
    let mut j: usize = 0;
    while j < 64
        invariant
            inter@.len() == 64,
            j <= 64,
            light == crate::game::count_upto(inter@, Player::Light, j as int),
            dark == crate::game::count_upto(inter@, Player::Dark, j as int),
            light <= j,
            dark <= j,
        decreases 64 - j,
    {
        match inter[j] {
            Cell::Taken { player: Player::Light } => {
                light += 1;
            },
            Cell::Taken { player: Player::Dark } => {
                dark += 1;
            },
            Cell::Empty => {},
        }
        j += 1;
        proof {
            crate::game::lemma_count_bounds(inter@, Player::Light, j as int);
            crate::game::lemma_count_bounds(inter@, Player::Dark, j as int);
        }
    }
    (inter, light as i16 - dark as i16)
}

} // verus!

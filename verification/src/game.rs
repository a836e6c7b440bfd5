//! The board and turn engine: board state, legal-move detection,
//! disk flipping, turn passing and end-of-game detection.

use vstd::prelude::*;

verus! {

/// One of the two players of a match.
#[derive(Clone, Copy, PartialEq, Eq, Structural, Debug)]
pub enum Player {
    Light,
    Dark,
}

impl Player {
    /// The player of the opposite colour.
    pub fn opposite(&self) -> (r: Player)
        ensures
            r == self.spec_opposite(),
    {
        match *self {
            Player::Light => Player::Dark,
            Player::Dark => Player::Light,
        }
    }

    pub open spec fn spec_opposite(self) -> Player {
        match self {
            Player::Light => Player::Dark,
            Player::Dark => Player::Light,
        }
    }
}

/// Opposition is involutive: flipping a side twice gives the side back.
pub proof fn lemma_opposite_involutive(p: Player)
    ensures
        p.spec_opposite().spec_opposite() == p,
{
}

/// A cell of the board: empty, or taken by one player's disk.
#[derive(Clone, Copy, PartialEq, Eq, Structural, Debug)]
pub enum Cell {
    Empty,
    Taken { player: Player },
}

/// A match is either running, with a player to move next, or over.
#[derive(Clone, Copy, PartialEq, Eq, Structural, Debug)]
pub enum Status {
    Running { next_player: Player },
    Ended,
}

/// The board's side length.
pub const BOARD_SIZE: usize = 8;

/// Cells of one board in row-major order; a well-formed board holds
/// exactly `BOARD_SIZE * BOARD_SIZE` cells.
pub type Board = Vec<Cell>;

/// Index of the cell at `(row, col)` in a row-major board.
pub open spec fn cell_index(row: int, col: int) -> int {
    row * 8 + col
}

/// Whether `(row, col)` lies on the board.
pub open spec fn in_bounds(row: int, col: int) -> bool {
    0 <= row < 8 && 0 <= col < 8
}

/// How many cells of `cells` up to (excluding) position `n` are taken by `p`.
pub open spec fn count_upto(cells: Seq<Cell>, p: Player, n: int) -> int
    decreases n,
{
    if n <= 0 {
        0
    } else {
        count_upto(cells, p, n - 1)
            + if n - 1 < cells.len() && cells[n - 1] == (Cell::Taken { player: p }) {
                1int
            } else {
                0int
            }
    }
}

/// How many disks of `p` stand on the whole board.
pub open spec fn count_of(cells: Seq<Cell>, p: Player) -> int {
    count_upto(cells, p, 64)
}

/// The coordinate delta of one of the eight cardinal directions, as
/// `(row step, column step)`.
pub open spec fn dir_delta(dir: int) -> (int, int) {
    if dir == 0 {
        (0, -1)
    } else if dir == 1 {
        (1, -1)
    } else if dir == 2 {
        (1, 0)
    } else if dir == 3 {
        (1, 1)
    } else if dir == 4 {
        (0, 1)
    } else if dir == 5 {
        (-1, 1)
    } else if dir == 6 {
        (-1, 0)
    } else {
        (-1, -1)
    }
}

/// The row reached after `k` steps from `row` in direction `dir`.
pub open spec fn ray_row(row: int, dir: int, k: int) -> int
    decreases k,
{
    if k <= 0 {
        row
    } else {
        ray_row(row, dir, k - 1) + dir_delta(dir).0
    }
}

/// The column reached after `k` steps from `col` in direction `dir`.
pub open spec fn ray_col(col: int, dir: int, k: int) -> int
    decreases k,
{
    if k <= 0 {
        col
    } else {
        ray_col(col, dir, k - 1) + dir_delta(dir).1
    }
}

/// Stepping along a ray is a linear walk: `k` steps move `k` deltas.
pub proof fn lemma_ray_linear(row: int, col: int, dir: int, k: int)
    requires
        0 <= k,
    ensures
        ray_row(row, dir, k) == row + k * dir_delta(dir).0,
        ray_col(col, dir, k) == col + k * dir_delta(dir).1,
    decreases k,
{
    if k > 0 {
        lemma_ray_linear(row, col, dir, k - 1);
        assert((k - 1) * dir_delta(dir).0 + dir_delta(dir).0 == k * dir_delta(dir).0)
            by (nonlinear_arith);
        assert((k - 1) * dir_delta(dir).1 + dir_delta(dir).1 == k * dir_delta(dir).1)
            by (nonlinear_arith);
    }
}

/// From a cell on the board, at most seven steps in any direction stay on
/// the board.
pub proof fn lemma_ray_bound(row: int, col: int, dir: int, k: int)
    requires
        0 <= dir < 8,
        0 <= k,
        in_bounds(row, col),
        in_bounds(ray_row(row, dir, k), ray_col(col, dir, k)),
    ensures
        k <= 7,
{
    lemma_ray_linear(row, col, dir, k);
    assert(k * 1 == k && k * -1 == -k && k * 0 == 0) by (nonlinear_arith);
}

/// Distinct step counts along one ray reach distinct cells.
pub proof fn lemma_ray_injective(row: int, col: int, dir: int, k1: int, k2: int)
    requires
        0 <= dir < 8,
        0 <= k1,
        0 <= k2,
        k1 != k2,
    ensures
        ray_row(row, dir, k1) != ray_row(row, dir, k2)
            || ray_col(col, dir, k1) != ray_col(col, dir, k2),
{
    lemma_ray_linear(row, col, dir, k1);
    lemma_ray_linear(row, col, dir, k2);
    assert(k1 * 1 == k1 && k1 * -1 == -k1 && k1 * 0 == 0) by (nonlinear_arith);
    assert(k2 * 1 == k2 && k2 * -1 == -k2 && k2 * 0 == 0) by (nonlinear_arith);
}

/// Rays cast in two different directions share no cell but their origin.
pub proof fn lemma_rays_disjoint(row: int, col: int, d1: int, d2: int, k1: int, k2: int)
    requires
        0 <= d1 < 8,
        0 <= d2 < 8,
        d1 != d2,
        1 <= k1,
        1 <= k2,
    ensures
        ray_row(row, d1, k1) != ray_row(row, d2, k2)
            || ray_col(col, d1, k1) != ray_col(col, d2, k2),
{
    lemma_ray_linear(row, col, d1, k1);
    lemma_ray_linear(row, col, d2, k2);
    let a = dir_delta(d1).0;
    let b = dir_delta(d1).1;
    let c = dir_delta(d2).0;
    let d = dir_delta(d2).1;
    assert(!(k1 * a == k2 * c && k1 * b == k2 * d)) by (nonlinear_arith)
        requires
            1 <= k1,
            1 <= k2,
            -1 <= a <= 1,
            -1 <= b <= 1,
            -1 <= c <= 1,
            -1 <= d <= 1,
            !(a == 0 && b == 0),
            !(c == 0 && d == 0),
            !(a == c && b == d),
    ;
}

/// Steps `1..=n` from `(row, col)` in direction `dir` all stay on the board
/// and hold disks of `p`'s opponent.
pub open spec fn opp_run(
    cells: Seq<Cell>,
    p: Player,
    row: int,
    col: int,
    dir: int,
    n: int,
) -> bool {
    forall|k: int|
        1 <= k <= n ==> {
            &&& in_bounds(#[trigger] ray_row(row, dir, k), ray_col(col, dir, k))
            &&& cells[cell_index(ray_row(row, dir, k), ray_col(col, dir, k))]
                == (Cell::Taken { player: p.spec_opposite() })
        }
}

/// A capturing line of length `n`: a run of `n` opponent disks from
/// `(row, col)` in direction `dir`, closed by a disk of `p`.
pub open spec fn capture_at(
    cells: Seq<Cell>,
    p: Player,
    row: int,
    col: int,
    dir: int,
    n: int,
) -> bool {
    &&& 1 <= n
    &&& opp_run(cells, p, row, col, dir, n)
    &&& in_bounds(ray_row(row, dir, n + 1), ray_col(col, dir, n + 1))
    &&& cells[cell_index(ray_row(row, dir, n + 1), ray_col(col, dir, n + 1))]
        == (Cell::Taken { player: p })
}

/// Whether placing a disk of `p` at `(row, col)` captures in direction `dir`.
pub open spec fn captures_dir(cells: Seq<Cell>, p: Player, row: int, col: int, dir: int) -> bool {
    exists|n: int| capture_at(cells, p, row, col, dir, n)
}

/// The length of the capturing line in direction `dir`; meaningful only
/// where `captures_dir` holds.
pub open spec fn capture_len(cells: Seq<Cell>, p: Player, row: int, col: int, dir: int) -> int {
    choose|n: int| capture_at(cells, p, row, col, dir, n)
}

/// A capturing line's length is determined by the position.
pub proof fn lemma_capture_unique(
    cells: Seq<Cell>,
    p: Player,
    row: int,
    col: int,
    dir: int,
    n1: int,
    n2: int,
)
    requires
        capture_at(cells, p, row, col, dir, n1),
        capture_at(cells, p, row, col, dir, n2),
    ensures
        n1 == n2,
{
    if n1 < n2 {
        assert(cells[cell_index(ray_row(row, dir, n1 + 1), ray_col(col, dir, n1 + 1))]
            == (Cell::Taken { player: p.spec_opposite() }));
    }
    if n2 < n1 {
        assert(cells[cell_index(ray_row(row, dir, n2 + 1), ray_col(col, dir, n2 + 1))]
            == (Cell::Taken { player: p.spec_opposite() }));
    }
}

/// Distinct cells on the board have distinct row-major indices.
pub proof fn lemma_cell_index_injective(r1: int, c1: int, r2: int, c2: int)
    requires
        in_bounds(r1, c1),
        in_bounds(r2, c2),
        r1 != r2 || c1 != c2,
    ensures
        cell_index(r1, c1) != cell_index(r2, c2),
{
}

/// Whether cell `i` lies on the capturing line of direction `dir`.
pub open spec fn on_capture_run(
    cells: Seq<Cell>,
    p: Player,
    row: int,
    col: int,
    dir: int,
    i: int,
) -> bool {
    exists|k: int|
        1 <= k <= capture_len(cells, p, row, col, dir) && i == cell_index(
            #[trigger] ray_row(row, dir, k),
            ray_col(col, dir, k),
        )
}

/// Two boards that agree on every cell of a ray admit the same captures
/// along it.
pub proof fn lemma_capture_transfer(
    cells1: Seq<Cell>,
    cells2: Seq<Cell>,
    p: Player,
    row: int,
    col: int,
    dir: int,
)
    requires
        cells1.len() == 64,
        cells2.len() == 64,
        forall|k: int|
            1 <= k && in_bounds(#[trigger] ray_row(row, dir, k), ray_col(col, dir, k))
                ==> cells1[cell_index(ray_row(row, dir, k), ray_col(col, dir, k))]
                == cells2[cell_index(ray_row(row, dir, k), ray_col(col, dir, k))],
    ensures
        forall|n: int|
            #[trigger] capture_at(cells1, p, row, col, dir, n) == capture_at(
                cells2,
                p,
                row,
                col,
                dir,
                n,
            ),
        captures_dir(cells1, p, row, col, dir) == captures_dir(cells2, p, row, col, dir),
        captures_dir(cells1, p, row, col, dir) ==> capture_len(cells1, p, row, col, dir)
            == capture_len(cells2, p, row, col, dir),
{
    assert forall|n: int|
        #[trigger] capture_at(cells1, p, row, col, dir, n) == capture_at(
            cells2,
            p,
            row,
            col,
            dir,
            n,
        ) by {
        if capture_at(cells1, p, row, col, dir, n) {
            assert(opp_run(cells2, p, row, col, dir, n));
        }
        if capture_at(cells2, p, row, col, dir, n) {
            assert(opp_run(cells1, p, row, col, dir, n));
        }
    }
    if captures_dir(cells1, p, row, col, dir) {
        let n1 = capture_len(cells1, p, row, col, dir);
        assert(capture_at(cells1, p, row, col, dir, n1));
        assert(capture_at(cells2, p, row, col, dir, n1));
        let n2 = capture_len(cells2, p, row, col, dir);
        assert(capture_at(cells2, p, row, col, dir, n2));
        lemma_capture_unique(cells1, p, row, col, dir, n1, n2);
    }
    if captures_dir(cells2, p, row, col, dir) {
        let n2 = capture_len(cells2, p, row, col, dir);
        assert(capture_at(cells2, p, row, col, dir, n2));
        assert(capture_at(cells1, p, row, col, dir, n2));
        assert(captures_dir(cells1, p, row, col, dir));
    }
}

/// No cell flipped for a direction below `dir` lies on the ray of `dir`
/// itself: capturing lines of different directions never touch.
proof fn lemma_flips_avoid_ray(cells: Seq<Cell>, p: Player, row: int, col: int, dir: int)
    requires
        0 <= dir < 8,
        in_bounds(row, col),
        cells.len() == 64,
    ensures
        forall|k: int|
            1 <= k && in_bounds(#[trigger] ray_row(row, dir, k), ray_col(col, dir, k))
                ==> !flipped_upto(
                cells,
                p,
                row,
                col,
                cell_index(ray_row(row, dir, k), ray_col(col, dir, k)),
                dir,
            ),
{
    assert forall|k: int|
        1 <= k && in_bounds(#[trigger] ray_row(row, dir, k), ray_col(col, dir, k))
            implies !flipped_upto(
            cells,
            p,
            row,
            col,
            cell_index(ray_row(row, dir, k), ray_col(col, dir, k)),
            dir,
        ) by {
        let i = cell_index(ray_row(row, dir, k), ray_col(col, dir, k));
        if flipped_upto(cells, p, row, col, i, dir) {
            let (d, n, j) = choose|d: int, n: int, j: int|
                #![trigger capture_at(cells, p, row, col, d, n), ray_row(row, d, j)]
                {
                    &&& 0 <= d < dir
                    &&& capture_at(cells, p, row, col, d, n)
                    &&& 1 <= j <= n
                    &&& i == cell_index(ray_row(row, d, j), ray_col(col, d, j))
                };
            assert(in_bounds(ray_row(row, d, j), ray_col(col, d, j)));
            lemma_rays_disjoint(row, col, d, dir, j, k);
            lemma_cell_index_injective(
                ray_row(row, d, j),
                ray_col(col, d, j),
                ray_row(row, dir, k),
                ray_col(col, dir, k),
            );
        }
    }
}

/// One direction's flips extend the flips of the directions before it.
proof fn lemma_flip_step(
    old_cells: Seq<Cell>,
    cur: Seq<Cell>,
    new: Seq<Cell>,
    p: Player,
    row: int,
    col: int,
    dir: int,
)
    requires
        old_cells.len() == 64,
        cur.len() == 64,
        new.len() == 64,
        0 <= dir < 8,
        in_bounds(row, col),
        forall|i: int|
            0 <= i < 64 ==> cur[i] == if flipped_upto(old_cells, p, row, col, i, dir) {
                Cell::Taken { player: p }
            } else {
                old_cells[i]
            },
        captures_dir(cur, p, row, col, dir),
        captures_dir(old_cells, p, row, col, dir),
        capture_len(cur, p, row, col, dir) == capture_len(old_cells, p, row, col, dir),
        forall|i: int|
            0 <= i < 64 ==> new[i] == if on_capture_run(cur, p, row, col, dir, i) {
                Cell::Taken { player: p }
            } else {
                cur[i]
            },
    ensures
        forall|i: int|
            0 <= i < 64 ==> new[i] == if flipped_upto(old_cells, p, row, col, i, dir + 1) {
                Cell::Taken { player: p }
            } else {
                old_cells[i]
            },
{
    let n = capture_len(old_cells, p, row, col, dir);
    assert(capture_at(old_cells, p, row, col, dir, n));
    assert forall|i: int| 0 <= i < 64 implies new[i] == if flipped_upto(
        old_cells,
        p,
        row,
        col,
        i,
        dir + 1,
    ) {
        Cell::Taken { player: p }
    } else {
        old_cells[i]
    } by {
        if on_capture_run(cur, p, row, col, dir, i) {
            let k = choose|k: int|
                1 <= k <= capture_len(cur, p, row, col, dir) && i == cell_index(
                    #[trigger] ray_row(row, dir, k),
                    ray_col(col, dir, k),
                );
            assert(capture_at(old_cells, p, row, col, dir, n) && 1 <= k <= n && i == cell_index(
                ray_row(row, dir, k),
                ray_col(col, dir, k),
            ));
            assert(flipped_upto(old_cells, p, row, col, i, dir + 1));
        } else {
            if flipped_upto(old_cells, p, row, col, i, dir) {
                let (d, m, k) = choose|d: int, m: int, k: int|
                    #![trigger capture_at(old_cells, p, row, col, d, m), ray_row(row, d, k)]
                    {
                        &&& 0 <= d < dir
                        &&& capture_at(old_cells, p, row, col, d, m)
                        &&& 1 <= k <= m
                        &&& i == cell_index(ray_row(row, d, k), ray_col(col, d, k))
                    };
                assert(flipped_upto(old_cells, p, row, col, i, dir + 1));
            } else {
                if flipped_upto(old_cells, p, row, col, i, dir + 1) {
                    let (d, m, k) = choose|d: int, m: int, k: int|
                        #![trigger capture_at(old_cells, p, row, col, d, m), ray_row(row, d, k)]
                        {
                            &&& 0 <= d < dir + 1
                            &&& capture_at(old_cells, p, row, col, d, m)
                            &&& 1 <= k <= m
                            &&& i == cell_index(ray_row(row, d, k), ray_col(col, d, k))
                        };
                    if d == dir {
                        lemma_capture_unique(old_cells, p, row, col, dir, m, n);
                        assert(on_capture_run(cur, p, row, col, dir, i));
                    } else {
                        assert(flipped_upto(old_cells, p, row, col, i, dir));
                    }
                }
            }
        }
    }
}

/// A legal placement for `p`: an empty cell on the board from which at
/// least one direction captures.
pub open spec fn legal_cell(cells: Seq<Cell>, p: Player, row: int, col: int) -> bool {
    &&& in_bounds(row, col)
    &&& cells[cell_index(row, col)] == Cell::Empty
    &&& exists|dir: int| 0 <= dir < 8 && captures_dir(cells, p, row, col, dir)
}

/// Whether `p` has any legal move at all on `cells`.
pub open spec fn has_move(cells: Seq<Cell>, p: Player) -> bool {
    exists|row: int, col: int| legal_cell(cells, p, row, col)
}

/// The coordinate delta of direction `dir`, for executable ray walks.
fn dir_step(dir: usize) -> (r: (i32, i32))
    requires
        dir < 8,
    ensures
        r.0 == dir_delta(dir as int).0,
        r.1 == dir_delta(dir as int).1,
        -1 <= r.0 <= 1,
        -1 <= r.1 <= 1,
{
    match dir {
        0 => (0, -1),
        1 => (1, -1),
        2 => (1, 0),
        3 => (1, 1),
        4 => (0, 1),
        5 => (-1, 1),
        6 => (-1, 0),
        _ => (-1, -1),
    }
}

/// A complete snapshot of the game: board, status, and cached scores.
pub struct Game {
    pub board: Board,
    pub status: Status,
    pub score_light: u8,
    pub score_dark: u8,
}

/// The cells flipped by considering only directions below `dmax`: every cell
/// on a capturing line from `(row, col)` in such a direction.
pub open spec fn flipped_upto(
    cells: Seq<Cell>,
    p: Player,
    row: int,
    col: int,
    i: int,
    dmax: int,
) -> bool {
    exists|dir: int, n: int, k: int|
        #![trigger capture_at(cells, p, row, col, dir, n), ray_row(row, dir, k)]
        {
            &&& 0 <= dir < dmax
            &&& capture_at(cells, p, row, col, dir, n)
            &&& 1 <= k <= n
            &&& i == cell_index(ray_row(row, dir, k), ray_col(col, dir, k))
        }
}

/// The cells flipped by a move of `p` at `(row, col)`: every cell on a
/// capturing line in any of the eight directions.
pub open spec fn flipped(cells: Seq<Cell>, p: Player, row: int, col: int, i: int) -> bool {
    flipped_upto(cells, p, row, col, i, 8)
}

/// The board after `p` moves at `(row, col)`: the placed disk and every
/// flipped cell become `p`'s; everything else is unchanged.
pub open spec fn apply_cells(cells: Seq<Cell>, p: Player, row: int, col: int) -> Seq<Cell> {
    Seq::new(64, |i: int|
        if i == cell_index(row, col) || flipped(cells, p, row, col, i) {
            Cell::Taken { player: p }
        } else {
            cells[i]
        })
}

/// The status after `p` has moved, on the resulting board: the opponent
/// moves if it can; otherwise `p` moves again if it can; otherwise the
/// game is over.
pub open spec fn next_status(newcells: Seq<Cell>, p: Player) -> Status {
    if has_move(newcells, p.spec_opposite()) {
        Status::Running { next_player: p.spec_opposite() }
    } else if has_move(newcells, p) {
        Status::Running { next_player: p }
    } else {
        Status::Ended
    }
}

/// A running status is only ever paired with a board on which the side to
/// move has a legal move.
pub open spec fn status_consistent(cells: Seq<Cell>, status: Status) -> bool {
    status matches Status::Running { next_player } ==> has_move(cells, next_player)
}

impl Game {
    /// The board's cells as a mathematical sequence.
    pub open spec fn cells(self) -> Seq<Cell> {
        self.board@
    }

    /// The board has its 64 cells; enough for the purely geometric queries.
    pub open spec fn len_ok(self) -> bool {
        self.board@.len() == 64
    }

    /// The side to move; meaningful only while the game is running.
    pub open spec fn spec_mover(self) -> Player {
        match self.status {
            Status::Running { next_player } => next_player,
            Status::Ended => Player::Light,
        }
    }

    /// Whether the side to move may legally move at `coord`; never true of
    /// an ended game.
    pub open spec fn spec_legal(self, coord: (usize, usize)) -> bool {
        match self.status {
            Status::Running { next_player } => legal_cell(
                self.board@,
                next_player,
                coord.0 as int,
                coord.1 as int,
            ),
            Status::Ended => false,
        }
    }

    /// The status as a mathematical value.
    pub open spec fn spec_status(self) -> Status {
        self.status
    }

    /// The structural invariant: a full board of 64 cells, with the score
    /// fields caching the true disk counts.
    pub open spec fn wf(self) -> bool {
        &&& self.board@.len() == 64
        &&& self.score_light == count_of(self.board@, Player::Light)
        &&& self.score_dark == count_of(self.board@, Player::Dark)
    }

    /// A new game: the four centre disks placed, Dark to move.
    pub fn new() -> (g: Game)
        ensures
            g.wf(),
            g.cells().len() == 64,
            g.spec_status() == (Status::Running { next_player: Player::Dark }),
            g.cells() == starting_cells(),
            g.score_light == 2,
            g.score_dark == 2,
            status_consistent(g.cells(), g.spec_status()),
    {
        let mut board: Board = Vec::new();
        let mut i: usize = 0;
        while i < 64
            invariant
                i <= 64,
                board@.len() == i,
                forall|j: int| 0 <= j < i ==> board@[j] == Cell::Empty,
            decreases 64 - i,
        {
            board.push(Cell::Empty);
            i += 1;
        }
        board.set(3 * 8 + 3, Cell::Taken { player: Player::Light });
        board.set(4 * 8 + 4, Cell::Taken { player: Player::Light });
        board.set(3 * 8 + 4, Cell::Taken { player: Player::Dark });
        board.set(4 * 8 + 3, Cell::Taken { player: Player::Dark });
        proof {
            assert(board@ =~= starting_cells());
            lemma_count_extend(starting_cells(), Player::Light, 64);
            lemma_count_extend(starting_cells(), Player::Dark, 64);
            lemma_dark_opens(starting_cells());
        }
        Game {
            board,
            status: Status::Running { next_player: Player::Dark },
            score_light: 2,
            score_dark: 2,
        }
    }

    /// Check whether a move by the side to move leads to a capture in the
    /// direction `dir`; false on an ended game.
    fn check_move_along_direction(&self, coord: (usize, usize), dir: usize) -> (r: bool)
        requires
            self.len_ok(),
            dir < 8,
            in_bounds(coord.0 as int, coord.1 as int),
        ensures
            r == match self.status {
                Status::Running { next_player } => captures_dir(
                    self.board@,
                    next_player,
                    coord.0 as int,
                    coord.1 as int,
                    dir as int,
                ),
                Status::Ended => false,
            },
    {
        let (row, col) = coord;
        let ghost rowi = row as int;
        let ghost coli = col as int;
        let ghost diri = dir as int;
        let p = match self.status {
            Status::Running { next_player } => next_player,
            Status::Ended => {
                return false;
            },
        };
        let (dr, dc) = dir_step(dir);
        let mut rr: i32 = row as i32 + dr;
        let mut cc: i32 = col as i32 + dc;
        proof {
            assert(ray_row(rowi, diri, 0) == rowi && ray_col(coli, diri, 0) == coli);
            assert(rr == ray_row(rowi, diri, 1) && cc == ray_col(coli, diri, 1));
        }
        if rr < 0 || rr >= 8 || cc < 0 || cc >= 8 {
            proof {
                assert forall|n: int| !capture_at(self.board@, p, rowi, coli, diri, n) by {
                    if capture_at(self.board@, p, rowi, coli, diri, n) {
                        assert(in_bounds(ray_row(rowi, diri, 1), ray_col(coli, diri, 1)));
                    }
                }
            }
            return false;
        }
        match self.board[(rr * 8 + cc) as usize] {
            Cell::Empty => {
                proof {
                    assert forall|n: int| !capture_at(self.board@, p, rowi, coli, diri, n) by {
                        if capture_at(self.board@, p, rowi, coli, diri, n) {
                            assert(self.board@[cell_index(ray_row(rowi, diri, 1), ray_col(coli, diri, 1))]
                                == (Cell::Taken { player: p.spec_opposite() }));
                        }
                    }
                }
                return false;
            },
            Cell::Taken { player: q } => {
                if q == p {
                    proof {
                        assert forall|n: int| !capture_at(self.board@, p, rowi, coli, diri, n) by {
                            if capture_at(self.board@, p, rowi, coli, diri, n) {
                                assert(self.board@[cell_index(ray_row(rowi, diri, 1), ray_col(coli, diri, 1))]
                                    == (Cell::Taken { player: p.spec_opposite() }));
                            }
                        }
                    }
                    return false;
                }
            },
        }
        let mut k: usize = 1;
        loop
            invariant
                self.len_ok(),
                dir < 8,
                diri == dir as int,
                rowi == coord.0 as int,
                coli == coord.1 as int,
                in_bounds(rowi, coli),
                self.status == (Status::Running { next_player: p }),
                1 <= k <= 7,
                rr == ray_row(rowi, diri, k as int),
                cc == ray_col(coli, diri, k as int),
                opp_run(self.board@, p, rowi, coli, diri, k as int),
                -1 <= dr <= 1,
                -1 <= dc <= 1,
                dr == dir_delta(diri).0,
                dc == dir_delta(diri).1,
            decreases 8 - k,
        {
            let ghost k_old = k as int;
            rr += dr;
            cc += dc;
            k += 1;
            proof {
                assert(rr == ray_row(rowi, diri, k_old + 1));
                assert(cc == ray_col(coli, diri, k_old + 1));
            }
            if rr < 0 || rr >= 8 || cc < 0 || cc >= 8 {
                proof {
                    assert forall|n: int| !capture_at(self.board@, p, rowi, coli, diri, n) by {
                        if capture_at(self.board@, p, rowi, coli, diri, n) {
                            if n + 1 <= k_old {
                                assert(self.board@[cell_index(
                                    ray_row(rowi, diri, n + 1),
                                    ray_col(coli, diri, n + 1),
                                )] == (Cell::Taken { player: p.spec_opposite() }));
                            } else {
                                assert(in_bounds(
                                    ray_row(rowi, diri, k_old + 1),
                                    ray_col(coli, diri, k_old + 1),
                                ));
                            }
                        }
                    }
                }
                return false;
            }
            match self.board[(rr * 8 + cc) as usize] {
                Cell::Empty => {
                    proof {
                        assert forall|n: int| !capture_at(self.board@, p, rowi, coli, diri, n) by {
                            if capture_at(self.board@, p, rowi, coli, diri, n) {
                                if n + 1 <= k_old {
                                    assert(self.board@[cell_index(
                                        ray_row(rowi, diri, n + 1),
                                        ray_col(coli, diri, n + 1),
                                    )] == (Cell::Taken { player: p.spec_opposite() }));
                                } else {
                                    assert(self.board@[cell_index(
                                        ray_row(rowi, diri, k_old + 1),
                                        ray_col(coli, diri, k_old + 1),
                                    )] == (Cell::Taken { player: p.spec_opposite() }));
                                }
                            }
                        }
                    }
                    return false;
                },
                Cell::Taken { player: q } => {
                    if q == p {
                        proof {
                            assert(capture_at(self.board@, p, rowi, coli, diri, k_old));
                        }
                        return true;
                    }
                    proof {
                        assert(self.board@[cell_index(
                            ray_row(rowi, diri, k_old + 1),
                            ray_col(coli, diri, k_old + 1),
                        )] == (Cell::Taken { player: p.spec_opposite() }));
                        assert forall|j: int| 1 <= j <= k_old + 1 implies {
                            &&& in_bounds(#[trigger] ray_row(rowi, diri, j), ray_col(coli, diri, j))
                            &&& self.board@[cell_index(ray_row(rowi, diri, j), ray_col(coli, diri, j))]
                                == (Cell::Taken { player: p.spec_opposite() })
                        } by {
                            if j <= k_old {
                                assert(opp_run(self.board@, p, rowi, coli, diri, k_old));
                            }
                        }
                        lemma_ray_bound(rowi, coli, diri, k_old + 1);
                    }
                },
            }
        }
    }

    /// Check whether a given move is legal for the side to move.
    pub fn check_move(&self, coord: (usize, usize)) -> (r: bool)
        requires
            self.len_ok(),
        ensures
            r == self.spec_legal(coord),
    {
        let (row, col) = coord;
        if row >= 8 || col >= 8 {
            return false;
        }
        match self.board[row * 8 + col] {
            Cell::Taken { .. } => {
                return false;
            },
            Cell::Empty => {},
        }
        proof {
            assert(cell_index(coord.0 as int, coord.1 as int) == row * 8 + col);
            assert(self.board@[cell_index(coord.0 as int, coord.1 as int)] == Cell::Empty);
        }
        let mut dir: usize = 0;
        while dir < 8
            invariant
                self.len_ok(),
                dir <= 8,
                in_bounds(coord.0 as int, coord.1 as int),
                row == coord.0 && col == coord.1,
                self.board@[cell_index(coord.0 as int, coord.1 as int)] == Cell::Empty,
                forall|d: int|
                    0 <= d < dir && self.status is Running ==> !#[trigger] captures_dir(
                        self.board@,
                        self.spec_mover(),
                        coord.0 as int,
                        coord.1 as int,
                        d,
                    ),
            decreases 8 - dir,
        {
            if self.check_move_along_direction((row, col), dir) {
                proof {
                    assert(self.board@[cell_index(coord.0 as int, coord.1 as int)]
                        == Cell::Empty);
                    assert(captures_dir(
                        self.board@,
                        self.spec_mover(),
                        coord.0 as int,
                        coord.1 as int,
                        dir as int,
                    ));
                }
                return true;
            }
            dir += 1;
        }
        false
    }

    /// Whether the side to move has any legal move at all; false on an
    /// ended game.
    pub fn can_move(&self) -> (r: bool)
        requires
            self.len_ok(),
        ensures
            r == match self.status {
                Status::Running { next_player } => has_move(self.board@, next_player),
                Status::Ended => false,
            },
    {
        let mut row: usize = 0;
        while row < 8
            invariant
                self.len_ok(),
                row <= 8,
                forall|r: int, c: int|
                    0 <= r < row && 0 <= c < 8 ==> !#[trigger] self.spec_legal((
                        r as usize,
                        c as usize,
                    )),
            decreases 8 - row,
        {
            let mut col: usize = 0;
            while col < 8
                invariant
                    self.len_ok(),
                    row < 8,
                    col <= 8,
                    forall|r: int, c: int|
                        0 <= r < row && 0 <= c < 8 ==> !#[trigger] self.spec_legal((
                            r as usize,
                            c as usize,
                        )),
                    forall|c: int|
                        0 <= c < col ==> !#[trigger] self.spec_legal((row, c as usize)),
                decreases 8 - col,
            {
                if self.check_move((row, col)) {
                    return true;
                }
                col += 1;
            }
            row += 1;
        }
        proof {
            match self.status {
                Status::Running { next_player } => {
                    if has_move(self.board@, next_player) {
                        let (r, c) = choose|r: int, c: int|
                            legal_cell(self.board@, next_player, r, c);
                        assert(!self.spec_legal((r as usize, c as usize)));
                    }
                },
                Status::Ended => {},
            }
        }
        false
    }

    /// Flip the capturing line of direction `dir` to the side to move.
    /// The move's legality in that direction must have been checked.
    fn eat_along_direction(&mut self, coord: (usize, usize), dir: usize)
        requires
            old(self).len_ok(),
            dir < 8,
            in_bounds(coord.0 as int, coord.1 as int),
            old(self).status is Running,
            captures_dir(
                old(self).board@,
                old(self).spec_mover(),
                coord.0 as int,
                coord.1 as int,
                dir as int,
            ),
        ensures
            final(self).len_ok(),
            final(self).status == old(self).status,
            final(self).score_light == old(self).score_light,
            final(self).score_dark == old(self).score_dark,
            forall|i: int|
                0 <= i < 64 ==> final(self).board@[i] == if on_capture_run(
                    old(self).board@,
                    old(self).spec_mover(),
                    coord.0 as int,
                    coord.1 as int,
                    dir as int,
                    i,
                ) {
                    Cell::Taken { player: old(self).spec_mover() }
                } else {
                    old(self).board@[i]
                },
    {
        let (row, col) = coord;
        let ghost rowi = row as int;
        let ghost coli = col as int;
        let ghost diri = dir as int;
        let ghost old_cells = old(self).board@;
        let p = match self.status {
            Status::Running { next_player } => next_player,
            Status::Ended => {
                proof {
                    assert(false);
                }
                return;
            },
        };
        let ghost n = capture_len(old_cells, p, rowi, coli, diri);
        proof {
            assert(capture_at(old_cells, p, rowi, coli, diri, n));
            lemma_ray_bound(rowi, coli, diri, n + 1);
        }
        let (dr, dc) = dir_step(dir);
        let mut rr: i32 = row as i32 + dr;
        let mut cc: i32 = col as i32 + dc;
        let mut k: usize = 1;
        proof {
            assert(ray_row(rowi, diri, 0) == rowi && ray_col(coli, diri, 0) == coli);
            assert(rr == ray_row(rowi, diri, 1) && cc == ray_col(coli, diri, 1));
        }
        loop
            invariant
                self.len_ok(),
                dir < 8,
                diri == dir as int,
                rowi == coord.0 as int,
                coli == coord.1 as int,
                in_bounds(rowi, coli),
                old_cells == old(self).board@,
                self.status == old(self).status,
                self.status == (Status::Running { next_player: p }),
                self.score_light == old(self).score_light,
                self.score_dark == old(self).score_dark,
                capture_at(old_cells, p, rowi, coli, diri, n),
                n == capture_len(old_cells, p, rowi, coli, diri),
                n <= 6,
                1 <= k <= n + 1,
                rr == ray_row(rowi, diri, k as int),
                cc == ray_col(coli, diri, k as int),
                dr == dir_delta(diri).0,
                dc == dir_delta(diri).1,
                -1 <= dr <= 1,
                -1 <= dc <= 1,
                forall|i: int|
                    0 <= i < 64 ==> self.board@[i] == if exists|j: int|
                        1 <= j < k && i == cell_index(
                            #[trigger] ray_row(rowi, diri, j),
                            ray_col(coli, diri, j),
                        ) {
                        Cell::Taken { player: p }
                    } else {
                        old_cells[i]
                    },
            decreases 8 - k,
        {
            proof {
                assert(in_bounds(ray_row(rowi, diri, k as int), ray_col(coli, diri, k as int)));
                assert forall|j: int| 1 <= j < k implies cell_index(
                    ray_row(rowi, diri, k as int),
                    ray_col(coli, diri, k as int),
                ) != cell_index(#[trigger] ray_row(rowi, diri, j), ray_col(coli, diri, j)) by {
                    assert(in_bounds(ray_row(rowi, diri, j), ray_col(coli, diri, j)));
                    lemma_ray_injective(rowi, coli, diri, j, k as int);
                    lemma_cell_index_injective(
                        ray_row(rowi, diri, j),
                        ray_col(coli, diri, j),
                        ray_row(rowi, diri, k as int),
                        ray_col(coli, diri, k as int),
                    );
                }
            }
            let idx = (rr * 8 + cc) as usize;
            proof {
                assert(idx == cell_index(ray_row(rowi, diri, k as int), ray_col(coli, diri, k as int)));
                assert(self.board@[idx as int] == old_cells[idx as int]);
            }
            match self.board[idx] {
                Cell::Taken { player: q } => {
                    if q == p {
                        proof {
                            assert(k == n + 1) by {
                                if k <= n {
                                    assert(old_cells[cell_index(
                                        ray_row(rowi, diri, k as int),
                                        ray_col(coli, diri, k as int),
                                    )] == (Cell::Taken { player: p.spec_opposite() }));
                                }
                            }
                        }
                        return;
                    } else {
                        self.board.set(idx, Cell::Taken { player: p });
                        let ghost k_old = k as int;
                        rr += dr;
                        cc += dc;
                        k += 1;
                        proof {
                            assert(k_old <= n) by {
                                if k_old == n + 1 {
                                    assert(old_cells[cell_index(
                                        ray_row(rowi, diri, n + 1),
                                        ray_col(coli, diri, n + 1),
                                    )] == (Cell::Taken { player: p }));
                                }
                            }
                            assert(rr == ray_row(rowi, diri, k_old + 1));
                            assert(cc == ray_col(coli, diri, k_old + 1));
                        }
                    }
                },
                Cell::Empty => {
                    proof {
                        assert(false) by {
                            if k <= n {
                                assert(old_cells[cell_index(
                                    ray_row(rowi, diri, k as int),
                                    ray_col(coli, diri, k as int),
                                )] == (Cell::Taken { player: p.spec_opposite() }));
                            } else {
                                assert(old_cells[cell_index(
                                    ray_row(rowi, diri, n + 1),
                                    ray_col(coli, diri, n + 1),
                                )] == (Cell::Taken { player: p }));
                            }
                        }
                    }
                    return;
                },
            }
        }
    }

    /// Count both players' disks on the board.
    fn count_scores(&self) -> (r: (u8, u8))
        requires
            self.len_ok(),
        ensures
            r.0 == count_of(self.board@, Player::Light),
            r.1 == count_of(self.board@, Player::Dark),
    {
        let mut light: u8 = 0;
        let mut dark: u8 = 0;
        let mut i: usize = 0;
        while i < 64
            invariant
                self.len_ok(),
                i <= 64,
                light == count_upto(self.board@, Player::Light, i as int),
                dark == count_upto(self.board@, Player::Dark, i as int),
                light <= i,
                dark <= i,
            decreases 64 - i,
        {
            match self.board[i] {
                Cell::Taken { player: Player::Light } => {
                    light += 1;
                },
                Cell::Taken { player: Player::Dark } => {
                    dark += 1;
                },
                Cell::Empty => {},
            }
            i += 1;
            proof {
                lemma_count_bounds(self.board@, Player::Light, i as int);
                lemma_count_bounds(self.board@, Player::Dark, i as int);
            }
        }
        (light, dark)
    }

    /// The side to move performs a move, if it is legal; an illegal
    /// coordinate, or an ended game, leaves the game untouched and
    /// returns false.
    pub fn make_move(&mut self, coord: (usize, usize)) -> (r: bool)
        requires
            old(self).wf(),
        ensures
            final(self).wf(),
            r == old(self).spec_legal(coord),
            !r ==> final(self).board@ == old(self).board@
                && final(self).status == old(self).status
                && final(self).score_light == old(self).score_light
                && final(self).score_dark == old(self).score_dark,
            r ==> final(self).board@ == apply_cells(
                old(self).board@,
                old(self).spec_mover(),
                coord.0 as int,
                coord.1 as int,
            ),
            r ==> final(self).status == next_status(
                final(self).board@,
                old(self).spec_mover(),
            ),
            r ==> status_consistent(final(self).board@, final(self).status),
    {
        let (row, col) = coord;
        let ghost rowi = row as int;
        let ghost coli = col as int;
        if row >= 8 || col >= 8 {
            return false;
        }
        proof {
            assert(cell_index(rowi, coli) == row * 8 + col);
        }
        match self.board[row * 8 + col] {
            Cell::Taken { .. } => {
                return false;
            },
            Cell::Empty => {},
        }
        let p = match self.status {
            Status::Running { next_player } => next_player,
            Status::Ended => {
                return false;
            },
        };
        let ghost old_cells = old(self).board@;
        let mut legal: bool = false;
        let mut dir: usize = 0;
        while dir < 8
            invariant
                dir <= 8,
                self.len_ok(),
                rowi == coord.0 as int,
                coli == coord.1 as int,
                row == coord.0 && col == coord.1,
                in_bounds(rowi, coli),
                old_cells == old(self).board@,
                old_cells.len() == 64,
                old_cells[cell_index(rowi, coli)] == Cell::Empty,
                old(self).status == (Status::Running { next_player: p }),
                self.status == old(self).status,
                self.score_light == old(self).score_light,
                self.score_dark == old(self).score_dark,
                p == old(self).spec_mover(),
                legal == exists|d: int|
                    0 <= d < dir && #[trigger] captures_dir(old_cells, p, rowi, coli, d),
                forall|i: int|
                    0 <= i < 64 ==> self.board@[i] == if flipped_upto(
                        old_cells,
                        p,
                        rowi,
                        coli,
                        i,
                        dir as int,
                    ) {
                        Cell::Taken { player: p }
                    } else {
                        old_cells[i]
                    },
            decreases 8 - dir,
        {
            let ghost diri = dir as int;
            proof {
                lemma_flips_avoid_ray(old_cells, p, rowi, coli, diri);
                assert forall|k: int|
                    1 <= k && in_bounds(#[trigger] ray_row(rowi, diri, k), ray_col(coli, diri, k))
                        implies self.board@[cell_index(ray_row(rowi, diri, k), ray_col(coli, diri, k))]
                        == old_cells[cell_index(ray_row(rowi, diri, k), ray_col(coli, diri, k))] by {
                    assert(!flipped_upto(
                        old_cells,
                        p,
                        rowi,
                        coli,
                        cell_index(ray_row(rowi, diri, k), ray_col(coli, diri, k)),
                        diri,
                    ));
                }
                lemma_capture_transfer(self.board@, old_cells, p, rowi, coli, diri);
            }
            if self.check_move_along_direction((row, col), dir) {
                let ghost cells_before = self.board@;
                self.eat_along_direction((row, col), dir);
                legal = true;
                proof {
                    lemma_flip_step(old_cells, cells_before, self.board@, p, rowi, coli, diri);
                }
            } else {
                proof {
                    assert forall|i: int| 0 <= i < 64 implies flipped_upto(
                        old_cells,
                        p,
                        rowi,
                        coli,
                        i,
                        diri + 1,
                    ) == flipped_upto(old_cells, p, rowi, coli, i, diri) by {
                        if flipped_upto(old_cells, p, rowi, coli, i, diri + 1) {
                            let (d, n, k) = choose|d: int, n: int, k: int|
                                #![trigger capture_at(old_cells, p, rowi, coli, d, n), ray_row(rowi, d, k)]
                                {
                                    &&& 0 <= d < diri + 1
                                    &&& capture_at(old_cells, p, rowi, coli, d, n)
                                    &&& 1 <= k <= n
                                    &&& i == cell_index(ray_row(rowi, d, k), ray_col(coli, d, k))
                                };
                            assert(d < diri);
                        }
                    }
                }
            }
            dir += 1;
        }
        if !legal {
            proof {
                assert forall|i: int| 0 <= i < 64 implies !flipped_upto(
                    old_cells,
                    p,
                    rowi,
                    coli,
                    i,
                    8,
                ) by {
                    if flipped_upto(old_cells, p, rowi, coli, i, 8) {
                        let (d, n, k) = choose|d: int, n: int, k: int|
                            #![trigger capture_at(old_cells, p, rowi, coli, d, n), ray_row(rowi, d, k)]
                            {
                                &&& 0 <= d < 8
                                &&& capture_at(old_cells, p, rowi, coli, d, n)
                                &&& 1 <= k <= n
                                &&& i == cell_index(ray_row(rowi, d, k), ray_col(coli, d, k))
                            };
                        assert(captures_dir(old_cells, p, rowi, coli, d));
                    }
                }
                assert(self.board@ =~= old_cells);
            }
            return false;
        }
        self.board.set(row * 8 + col, Cell::Taken { player: p });
        proof {
            assert(self.board@ =~= apply_cells(old_cells, p, rowi, coli));
        }
        let (light, dark) = self.count_scores();
        self.score_light = light;
        self.score_dark = dark;
        self.status = Status::Running { next_player: p.opposite() };
        if self.can_move() {
            return true;
        }
        self.status = Status::Running { next_player: p };
        if self.can_move() {
            return true;
        }
        self.status = Status::Ended;
        true
    }

    /// A game set up from a given status and board; the scores are
    /// computed from the board.
    pub fn new_custom_game(status: Status, board: Board) -> (g: Game)
        requires
            board@.len() == 64,
        ensures
            g.wf(),
            g.board@ == board@,
            g.status == status,
    {
        let mut g = Game { board, status, score_light: 0, score_dark: 0 };
        let (light, dark) = g.count_scores();
        g.score_light = light;
        g.score_dark = dark;
        g
    }

    /// The legal moves of the side to move, in row-major scan order;
    /// empty on an ended game.
    pub fn legal_moves(&self) -> (r: Vec<(usize, usize)>)
        requires
            self.len_ok(),
        ensures
            r@ == legal_seq(*self),
    {
        let mut out: Vec<(usize, usize)> = Vec::new();
        let mut i: usize = 0;
        while i < 64
            invariant
                self.len_ok(),
                i <= 64,
                out@ == legal_seq_upto(*self, i as int),
            decreases 64 - i,
        {
            let row = i / 8;
            let col = i % 8;
            if self.check_move((row, col)) {
                out.push((row, col));
            }
            i += 1;
        }
        out
    }

    /// A copy of the board.
    pub fn get_board(&self) -> (r: Board)
        requires
            self.wf(),
        ensures
            r@ == self.cells(),
    {
        let mut out: Board = Vec::new();
        let mut i: usize = 0;
        while i < self.board.len()
            invariant
                self.board@.len() == 64,
                i <= 64,
                out@.len() == i,
                forall|j: int| 0 <= j < i ==> out@[j] == self.board@[j],
            decreases 64 - i,
        {
            out.push(self.board[i]);
            i += 1;
        }
        proof {
            assert(out@ =~= self.cells());
        }
        out
    }

    /// The game's status.
    pub fn get_status(&self) -> (r: Status)
        ensures
            r == self.spec_status(),
    {
        self.status
    }

    /// The current score of the match, as `(light, dark)`.
    pub fn get_score(&self) -> (r: (u8, u8))
        requires
            self.wf(),
        ensures
            r.0 == count_of(self.cells(), Player::Light),
            r.1 == count_of(self.cells(), Player::Dark),
    {
        (self.score_light, self.score_dark)
    }

    /// The difference in score between Light and Dark.
    pub fn get_score_diff(&self) -> (r: i16)
        requires
            self.wf(),
        ensures
            r == count_of(self.cells(), Player::Light) - count_of(self.cells(), Player::Dark),
    {
        self.score_light as i16 - self.score_dark as i16
    }

    /// How many disks stand on the board; one more than the number of
    /// completed plies, counting the four starting disks.
    pub fn get_turn(&self) -> (r: u8)
        requires
            self.wf(),
        ensures
            r == count_of(self.cells(), Player::Light) + count_of(self.cells(), Player::Dark),
    {
        proof {
            lemma_count_bounds(self.cells(), Player::Light, 64);
            lemma_count_bounds(self.cells(), Player::Dark, 64);
            lemma_count_sum_bound(self.cells(), 64);
        }
        self.score_light + self.score_dark
    }

    /// The cell at the given coordinate.
    pub fn get_cell(&self, coord: (usize, usize)) -> (r: Cell)
        requires
            self.wf(),
            in_bounds(coord.0 as int, coord.1 as int),
        ensures
            r == self.cells()[cell_index(coord.0 as int, coord.1 as int)],
    {
        let (row, col) = coord;
        self.board[row * 8 + col]
    }
}

impl Clone for Game {
    /// An exact copy; search explores branches on copies so that the
    /// parent turn is never disturbed.
    fn clone(&self) -> (r: Game)
        ensures
            r.board@ == self.board@,
            r.status == self.status,
            r.score_light == self.score_light,
            r.score_dark == self.score_dark,
    {
        let mut board: Board = Vec::new();
        let mut i: usize = 0;
        while i < self.board.len()
            invariant
                i <= self.board@.len(),
                board@.len() == i,
                forall|j: int| 0 <= j < i ==> board@[j] == self.board@[j],
            decreases self.board@.len() - i,
        {
            board.push(self.board[i]);
            i += 1;
        }
        proof {
            assert(board@ =~= self.board@);
        }
        Game {
            board,
            status: self.status,
            score_light: self.score_light,
            score_dark: self.score_dark,
        }
    }
}

/// The moves of `p` that are legal among the first `n` cells of the
/// row-major scan.
pub open spec fn legal_seq_upto(g: Game, n: int) -> Seq<(usize, usize)>
    decreases n,
{
    if n <= 0 {
        Seq::empty()
    } else {
        let prev = legal_seq_upto(g, n - 1);
        let coord = (((n - 1) / 8) as usize, ((n - 1) % 8) as usize);
        if g.spec_legal(coord) {
            prev.push(coord)
        } else {
            prev
        }
    }
}

/// The legal moves of the side to move, in row-major scan order.
pub open spec fn legal_seq(g: Game) -> Seq<(usize, usize)> {
    legal_seq_upto(g, 64)
}

/// How many of the first `n` cells a move of `p` at `(row, col)` flips.
pub open spec fn flip_count(cells: Seq<Cell>, p: Player, row: int, col: int, n: int) -> int
    decreases n,
{
    if n <= 0 {
        0
    } else {
        flip_count(cells, p, row, col, n - 1) + if flipped(cells, p, row, col, n - 1) {
            1int
        } else {
            0int
        }
    }
}

/// A flipped cell holds a disk of the opponent.
pub proof fn lemma_flipped_is_opp(cells: Seq<Cell>, p: Player, row: int, col: int, i: int)
    requires
        flipped(cells, p, row, col, i),
    ensures
        cells[i] == (Cell::Taken { player: p.spec_opposite() }),
{
    let (d, n, k) = choose|d: int, n: int, k: int|
        #![trigger capture_at(cells, p, row, col, d, n), ray_row(row, d, k)]
        {
            &&& 0 <= d < 8
            &&& capture_at(cells, p, row, col, d, n)
            &&& 1 <= k <= n
            &&& i == cell_index(ray_row(row, d, k), ray_col(col, d, k))
        };
    assert(cells[cell_index(ray_row(row, d, k), ray_col(col, d, k))] == (Cell::Taken {
        player: p.spec_opposite(),
    }));
}

/// Legality symmetry: a placement is legal exactly when it would flip at
/// least one disk, and an ended game admits no legal placement at all.
pub proof fn lemma_legal_iff_flips(g: Game, coord: (usize, usize))
    requires
        g.len_ok(),
    ensures
        g.spec_legal(coord) <==> {
            &&& g.status is Running
            &&& in_bounds(coord.0 as int, coord.1 as int)
            &&& g.board@[cell_index(coord.0 as int, coord.1 as int)] == Cell::Empty
            &&& exists|i: int|
                0 <= i < 64 && #[trigger] flipped(
                    g.board@,
                    g.spec_mover(),
                    coord.0 as int,
                    coord.1 as int,
                    i,
                )
        },
{
    let row = coord.0 as int;
    let col = coord.1 as int;
    let p = g.spec_mover();
    if g.spec_legal(coord) {
        let d = choose|d: int| 0 <= d < 8 && captures_dir(g.board@, p, row, col, d);
        let n = choose|n: int| capture_at(g.board@, p, row, col, d, n);
        let i = cell_index(ray_row(row, d, 1), ray_col(col, d, 1));
        assert(in_bounds(ray_row(row, d, 1), ray_col(col, d, 1)));
        assert(0 <= i < 64);
        assert(capture_at(g.board@, p, row, col, d, n) && 1 <= 1 <= n && i == cell_index(
            ray_row(row, d, 1),
            ray_col(col, d, 1),
        ));
        assert(flipped(g.board@, p, row, col, i));
    }
    if {
        &&& g.status is Running
        &&& in_bounds(row, col)
        &&& g.board@[cell_index(row, col)] == Cell::Empty
        &&& exists|i: int| 0 <= i < 64 && #[trigger] flipped(g.board@, p, row, col, i)
    } {
        let i = choose|i: int| 0 <= i < 64 && #[trigger] flipped(g.board@, p, row, col, i);
        let (d, n, k) = choose|d: int, n: int, k: int|
            #![trigger capture_at(g.board@, p, row, col, d, n), ray_row(row, d, k)]
            {
                &&& 0 <= d < 8
                &&& capture_at(g.board@, p, row, col, d, n)
                &&& 1 <= k <= n
                &&& i == cell_index(ray_row(row, d, k), ray_col(col, d, k))
            };
        assert(captures_dir(g.board@, p, row, col, d));
        assert(g.spec_legal(coord));
    }
}

/// The prefix count of flips never decreases as the prefix grows.
proof fn lemma_flip_count_mono(cells: Seq<Cell>, p: Player, row: int, col: int, n1: int, n2: int)
    requires
        n1 <= n2,
    ensures
        flip_count(cells, p, row, col, n1) <= flip_count(cells, p, row, col, n2),
    decreases n2 - n1,
{
    if n1 < n2 {
        lemma_flip_count_mono(cells, p, row, col, n1, n2 - 1);
    }
}

/// Counting disks on the board after a move, cell by cell: the mover
/// gains the placed disk and every flip, the opponent loses every flip.
proof fn lemma_apply_counts_upto(cells: Seq<Cell>, p: Player, row: int, col: int, n: int)
    requires
        cells.len() == 64,
        in_bounds(row, col),
        cells[cell_index(row, col)] == Cell::Empty,
        0 <= n <= 64,
    ensures
        count_upto(apply_cells(cells, p, row, col), p, n) == count_upto(cells, p, n)
            + flip_count(cells, p, row, col, n)
            + if cell_index(row, col) < n { 1int } else { 0int },
        count_upto(apply_cells(cells, p, row, col), p.spec_opposite(), n)
            == count_upto(cells, p.spec_opposite(), n) - flip_count(cells, p, row, col, n),
    decreases n,
{
    if n > 0 {
        lemma_apply_counts_upto(cells, p, row, col, n - 1);
        let i = n - 1;
        if flipped(cells, p, row, col, i) {
            lemma_flipped_is_opp(cells, p, row, col, i);
        }
    }
}

/// Score conservation: a legal move places one disk for the mover and
/// turns each flipped disk from the opponent to the mover, so the total
/// of both scores grows by exactly one.
pub proof fn lemma_score_conservation(g: Game, coord: (usize, usize))
    requires
        g.wf(),
        g.spec_legal(coord),
    ensures
        ({
            let p = g.spec_mover();
            let newc = apply_cells(g.board@, p, coord.0 as int, coord.1 as int);
            let f = flip_count(g.board@, p, coord.0 as int, coord.1 as int, 64);
            &&& 1 <= f
            &&& count_of(newc, p) == count_of(g.board@, p) + f + 1
            &&& count_of(newc, p.spec_opposite()) == count_of(g.board@, p.spec_opposite()) - f
            &&& count_of(newc, Player::Light) + count_of(newc, Player::Dark) == count_of(
                g.board@,
                Player::Light,
            ) + count_of(g.board@, Player::Dark) + 1
        }),
{
    let row = coord.0 as int;
    let col = coord.1 as int;
    let p = g.spec_mover();
    lemma_apply_counts_upto(g.board@, p, row, col, 64);
    lemma_legal_iff_flips(g, coord);
    let i = choose|i: int| 0 <= i < 64 && #[trigger] flipped(g.board@, p, row, col, i);
    lemma_flip_count_mono(g.board@, p, row, col, 0, i);
    assert(flip_count(g.board@, p, row, col, i + 1) >= 1);
    lemma_flip_count_mono(g.board@, p, row, col, i + 1, 64);
    assert(p.spec_opposite().spec_opposite() == p);
}

/// Status progression: the game ends exactly when neither side has a
/// legal move on the resulting board.
pub proof fn lemma_status_progression(newcells: Seq<Cell>, p: Player)
    ensures
        (next_status(newcells, p) == Status::Ended) <==> (!has_move(newcells, p) && !has_move(
            newcells,
            p.spec_opposite(),
        )),
{
}

/// An ended game is absorbing: no coordinate is ever legal in it, so a
/// move attempt leaves it untouched.
pub proof fn lemma_ended_absorbing(g: Game, coord: (usize, usize))
    requires
        g.status == Status::Ended,
    ensures
        !g.spec_legal(coord),
{
}

/// The starting position: the four centre cells taken, all others empty.
pub open spec fn starting_cells() -> Seq<Cell> {
    Seq::new(64, |i: int|
        if i == cell_index(3, 3) || i == cell_index(4, 4) {
            Cell::Taken { player: Player::Light }
        } else if i == cell_index(3, 4) || i == cell_index(4, 3) {
            Cell::Taken { player: Player::Dark }
        } else {
            Cell::Empty
        })
}

/// Dark can open the game: stepping south from (2,3) crosses the Light
/// disk at (3,3) and lands on the Dark disk at (4,3).
proof fn lemma_dark_opens(cells: Seq<Cell>)
    requires
        cells == starting_cells(),
    ensures
        has_move(cells, Player::Dark),
{
    assert(ray_row(2, 2, 0) == 2 && ray_col(3, 2, 0) == 3);
    assert(ray_row(2, 2, 1) == 3 && ray_col(3, 2, 1) == 3);
    assert(ray_row(2, 2, 2) == 4 && ray_col(3, 2, 2) == 3);
    assert(cells[cell_index(3, 3)] == (Cell::Taken { player: Player::Light }));
    assert(cells[cell_index(4, 3)] == (Cell::Taken { player: Player::Dark }));
    assert(opp_run(cells, Player::Dark, 2, 3, 2, 1));
    assert(capture_at(cells, Player::Dark, 2, 3, 2, 1));
    assert(captures_dir(cells, Player::Dark, 2, 3, 2));
    assert(cells[cell_index(2, 3)] == Cell::Empty);
    assert(legal_cell(cells, Player::Dark, 2, 3));
}

/// `count_upto` evaluated outright on the starting position.
proof fn lemma_count_extend(cells: Seq<Cell>, p: Player, n: int)
    requires
        cells == starting_cells(),
        0 <= n <= 64,
    ensures
        count_upto(cells, p, n)
            == if p == Player::Light {
                   if n <= 27 { 0int } else if n <= 36 { 1int } else { 2int }
               } else {
                   if n <= 28 { 0int } else if n <= 35 { 1int } else { 2int }
               },
    decreases n,
{
    if n > 0 {
        lemma_count_extend(cells, p, n - 1);
    }
}

/// A prefix count never exceeds the prefix length.
pub proof fn lemma_count_bounds(cells: Seq<Cell>, p: Player, n: int)
    ensures
        0 <= count_upto(cells, p, n),
        count_upto(cells, p, n) <= if n >= 0 { n } else { 0 },
    decreases n,
{
    if n > 0 {
        lemma_count_bounds(cells, p, n - 1);
    }
}

/// The two players' prefix counts together never exceed the prefix length.
pub proof fn lemma_count_sum_bound(cells: Seq<Cell>, n: int)
    ensures
        count_upto(cells, Player::Light, n) + count_upto(cells, Player::Dark, n)
            <= if n >= 0 { n } else { 0 },
    decreases n,
{
    if n > 0 {
        lemma_count_sum_bound(cells, n - 1);
    }
}

} // verus!

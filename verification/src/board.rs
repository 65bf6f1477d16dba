//! Board state for the Knight's Tour search: an 8x8 grid of move-order
//! values, the knight's current square, the starting square, and a move
//! counter. Cell values are 0 for an unvisited square, 1..=63 for the order
//! in which a square was left behind, and 64 (the sentinel) for the square
//! the knight stands on now.

use vstd::prelude::*;

verus! {

broadcast use vstd::array::group_array_axioms;

/// Side length of the board.
pub const BOARD_SIZE: usize = 8;

/// A square of the board, given as (column, row).
#[derive(Clone, Copy, Debug, PartialEq, Eq, Structural)]
pub struct Position {
    pub x: usize,
    pub y: usize,
}

impl View for Position {
    type V = (int, int);

    open spec fn view(&self) -> (int, int) {
        (self.x as int, self.y as int)
    }
}

/// Mathematical model of a board: the grid as a sequence of 64 cell values
/// in row-major order, the knight's square, the starting square, and the
/// number of moves made so far.
pub ghost struct Model {
    pub grid: Seq<usize>,
    pub horse: (int, int),
    pub start: (int, int),
    pub moves: int,
}

/// True iff (x, y) lies on the 8x8 board.
pub open spec fn valid_at(x: int, y: int) -> bool {
    0 <= x < 8 && 0 <= y < 8
}

/// Row-major index of the square (x, y).
pub open spec fn cell_idx(x: int, y: int) -> int {
    x + y * 8
}

/// True iff the square (x, y) carries a non-zero mark (a move order or the
/// knight sentinel).
pub open spec fn visited_at(grid: Seq<usize>, x: int, y: int) -> bool {
    grid[cell_idx(x, y)] != 0
}

/// True iff some cell of the grid holds the value `v`.
pub open spec fn has_value(grid: Seq<usize>, v: int) -> bool {
    exists|i: int| 0 <= i < 64 && #[trigger] grid[i] == v
}

/// Number of zero cells among the first `i` cells of the grid.
pub open spec fn zeros_below(grid: Seq<usize>, i: int) -> int
    decreases i,
{
    if i <= 0 {
        0
    } else {
        zeros_below(grid, i - 1) + if grid[i - 1] == 0 {
            1int
        } else {
            0int
        }
    }
}

impl Model {
    /// Well-formedness of a board: coordinates in range, cell values drawn
    /// from {0, 1..=moves, 64}, the sentinel exactly on the knight's square
    /// once a move was made, the value 1 on the starting square, every order
    /// value present exactly once, and the count of untouched squares fixed
    /// by the move counter.
    pub open spec fn wf(self) -> bool {
        &&& self.grid.len() == 64
        &&& valid_at(self.horse.0, self.horse.1)
        &&& valid_at(self.start.0, self.start.1)
        &&& 0 <= self.moves <= 63
        &&& (forall|i: int|
            0 <= i < 64 ==> (#[trigger] self.grid[i] == 0 || self.grid[i] == 64 || 1
                <= self.grid[i] <= self.moves))
        &&& (self.moves == 0 ==> self.horse == self.start)
        &&& (self.moves == 0 ==> forall|i: int| 0 <= i < 64 ==> #[trigger] self.grid[i] == 0)
        &&& (self.moves > 0 ==> self.grid[cell_idx(self.horse.0, self.horse.1)] == 64)
        &&& (self.moves > 0 ==> self.grid[cell_idx(self.start.0, self.start.1)] == 1)
        &&& (forall|i: int|
            0 <= i < 64 && #[trigger] self.grid[i] == 64 ==> i == cell_idx(
                self.horse.0,
                self.horse.1,
            ))
        &&& (forall|v: int| 1 <= v <= self.moves ==> #[trigger] has_value(self.grid, v))
        &&& (forall|i: int, j: int|
            0 <= i < 64 && 0 <= j < 64 && #[trigger] self.grid[i] != 0 && self.grid[i]
                == #[trigger] self.grid[j] ==> i == j)
        &&& zeros_below(self.grid, 64) == (if self.moves == 0 {
            64int
        } else {
            63 - self.moves
        })
    }
}

/// Column offset of the i-th knight move, in the fixed generation order
/// (-1,2), (1,2), (1,-2), (-1,-2), (-2,1), (2,1), (2,-1), (-2,-1).
pub open spec fn knight_dx(i: int) -> int {
    if i == 0 {
        -1
    } else if i == 1 {
        1
    } else if i == 2 {
        1
    } else if i == 3 {
        -1
    } else if i == 4 {
        -2
    } else if i == 5 {
        2
    } else if i == 6 {
        2
    } else {
        -2
    }
}

/// Row offset of the i-th knight move, matching `knight_dx`.
pub open spec fn knight_dy(i: int) -> int {
    if i == 0 {
        2
    } else if i == 1 {
        2
    } else if i == 2 {
        -2
    } else if i == 3 {
        -2
    } else if i == 4 {
        1
    } else if i == 5 {
        1
    } else if i == 6 {
        -1
    } else {
        -1
    }
}

/// The square reached from (x, y) by the i-th knight move.
pub open spec fn target_of(x: int, y: int, i: int) -> (int, int) {
    (x + knight_dx(i), y + knight_dy(i))
}

/// True iff (x, y) is a square a knight may move to: on the board and not
/// yet visited.
pub open spec fn cand_ok(grid: Seq<usize>, x: int, y: int) -> bool {
    valid_at(x, y) && !visited_at(grid, x, y)
}

/// The legal knight moves from (x, y) among offsets i..8, in generation
/// order.
pub open spec fn moves_from(grid: Seq<usize>, x: int, y: int, i: int) -> Seq<(int, int)>
    decreases 8 - i,
{
    if i < 0 || i >= 8 {
        Seq::empty()
    } else {
        let t = target_of(x, y, i);
        let rest = moves_from(grid, x, y, i + 1);
        if cand_ok(grid, t.0, t.1) {
            seq![t] + rest
        } else {
            rest
        }
    }
}

/// All legal knight moves from (x, y), in the fixed generation order.
pub open spec fn knight_moves(grid: Seq<usize>, x: int, y: int) -> Seq<(int, int)> {
    moves_from(grid, x, y, 0)
}

/// The coordinate views of a sequence of positions.
pub open spec fn pos_views(s: Seq<Position>) -> Seq<(int, int)> {
    s.map_values(|p: Position| p@)
}

/// True iff square `b` is one knight move away from square `a`.
pub open spec fn knight_attacks(a: (int, int), b: (int, int)) -> bool {
    exists|j: int| 0 <= j < 8 && b == #[trigger] target_of(a.0, a.1, j)
}

/// Every square in a legal-move list is on the board, unvisited, and is not
/// the square the moves are generated from.
pub proof fn lemma_moves_from_ok(grid: Seq<usize>, x: int, y: int, i: int)
    ensures
        forall|k: int|
            0 <= k < moves_from(grid, x, y, i).len() ==> cand_ok(
                grid,
                (#[trigger] moves_from(grid, x, y, i)[k]).0,
                moves_from(grid, x, y, i)[k].1,
            ) && moves_from(grid, x, y, i)[k] != (x, y),
    decreases 8 - i,
{
    if 0 <= i < 8 {
        lemma_moves_from_ok(grid, x, y, i + 1);
        assert(knight_dx(i) != 0);
        let t = target_of(x, y, i);
        let s = moves_from(grid, x, y, i);
        let rest = moves_from(grid, x, y, i + 1);
        if cand_ok(grid, t.0, t.1) {
            assert(s == seq![t] + rest);
            assert forall|k: int|
                0 <= k < s.len() implies cand_ok(grid, (#[trigger] s[k]).0, s[k].1) && s[k] != (
                x,
                y,
            ) by {
                if k == 0 {
                    assert(s[k] == t);
                } else {
                    assert(s[k] == rest[k - 1]);
                }
            }
        }
    }
}

/// A square stands in the legal-move list for offsets i..8 exactly when some
/// offset in that range reaches it and it is on the board and unvisited.
pub proof fn lemma_moves_from_contains(grid: Seq<usize>, x: int, y: int, i: int, p: (int, int))
    requires
        0 <= i <= 8,
    ensures
        moves_from(grid, x, y, i).contains(p) <==> ((exists|j: int|
            i <= j < 8 && p == #[trigger] target_of(x, y, j)) && cand_ok(grid, p.0, p.1)),
    decreases 8 - i,
{
    if i == 8 {
    } else {
        lemma_moves_from_contains(grid, x, y, i + 1, p);
        let t = target_of(x, y, i);
        let s = moves_from(grid, x, y, i);
        let rest = moves_from(grid, x, y, i + 1);
        if cand_ok(grid, t.0, t.1) {
            assert(s == seq![t] + rest);
            if s.contains(p) {
                let w = choose|w: int| 0 <= w < s.len() && s[w] == p;
                if w == 0 {
                    assert(p == target_of(x, y, i));
                } else {
                    assert(rest[w - 1] == p);
                    assert(rest.contains(p));
                }
            }
            if (exists|j: int| i <= j < 8 && p == #[trigger] target_of(x, y, j)) && cand_ok(
                grid,
                p.0,
                p.1,
            ) {
                let j = choose|j: int| i <= j < 8 && p == #[trigger] target_of(x, y, j);
                if j == i {
                    assert(s[0] == p);
                } else {
                    assert(rest.contains(p));
                    let w = choose|w: int| 0 <= w < rest.len() && rest[w] == p;
                    assert(s[w + 1] == p);
                }
            }
        } else {
            if s.contains(p) {
                assert(rest.contains(p));
            }
            if (exists|j: int| i <= j < 8 && p == #[trigger] target_of(x, y, j)) && cand_ok(
                grid,
                p.0,
                p.1,
            ) {
                let j = choose|j: int| i <= j < 8 && p == #[trigger] target_of(x, y, j);
                if j == i {
                    assert(false);
                } else {
                    assert(rest.contains(p));
                }
            }
        }
    }
}

/// Model of a fresh board with the knight placed at (x, y): every cell zero,
/// no move made yet.
pub open spec fn init_model(x: int, y: int) -> Model {
    Model { grid: Seq::new(64, |i: int| 0usize), horse: (x, y), start: (x, y), moves: 0 }
}

/// Model of a board after moving the knight to (x, y): the old square is
/// stamped with the next order value, the target square takes the sentinel,
/// and the move counter grows by one.
pub open spec fn place(m: Model, x: int, y: int) -> Model {
    Model {
        grid: m.grid.update(cell_idx(m.horse.0, m.horse.1), (m.moves + 1) as usize).update(
            cell_idx(x, y),
            64usize,
        ),
        horse: (x, y),
        start: m.start,
        moves: m.moves + 1,
    }
}

/// The board model after making the first `k` of the moves `s`, in order,
/// starting from `m`.
pub open spec fn apply_moves(m: Model, s: Seq<(int, int)>, k: int) -> Model
    decreases k,
{
    if k <= 0 {
        m
    } else {
        let prev = apply_moves(m, s, k - 1);
        place(prev, s[k - 1].0, s[k - 1].1)
    }
}

/// Placing the knight is the one operation that advances the move counter,
/// and it advances it by exactly one: after `k` placements the counter has
/// grown by exactly `k`.
pub proof fn lemma_counter_after_placements(m: Model, s: Seq<(int, int)>, k: int)
    requires
        0 <= k,
    ensures
        apply_moves(m, s, k).moves == m.moves + k,
    decreases k,
{
    if k > 0 {
        lemma_counter_after_placements(m, s, k - 1);
    }
}

/// Sixty-three placements from a fresh board always reach the solved move
/// count, whatever squares were played: the counter starts at zero and each
/// placement adds exactly one.
pub proof fn lemma_sixty_three_placements_solve(x: int, y: int, s: Seq<(int, int)>)
    requires
        s.len() == 63,
    ensures
        apply_moves(init_model(x, y), s, 63).moves == 63,
{
    lemma_counter_after_placements(init_model(x, y), s, 63);
}

/// The board itself. The knight stands on `horse`; `cells` records, for each
/// square, when the knight left it, with 64 marking the knight's own square.
#[derive(Clone, Copy)]
pub struct Board {
    pub cells: [usize; 64],
    pub horse: Position,
    pub start_position: Position,
    pub total_moves: usize,
}

impl View for Board {
    type V = Model;

    open spec fn view(&self) -> Model {
        Model {
            grid: self.cells@,
            horse: (self.horse.x as int, self.horse.y as int),
            start: (self.start_position.x as int, self.start_position.y as int),
            moves: self.total_moves as int,
        }
    }
}

/// Updating one cell changes the zero count of a prefix exactly by whether a
/// zero was overwritten or written inside that prefix.
proof fn lemma_zeros_update(grid: Seq<usize>, n: int, j: int, v: usize)
    requires
        0 <= j < grid.len(),
        0 <= n <= grid.len(),
    ensures
        zeros_below(grid.update(j, v), n) == zeros_below(grid, n) - (if j < n && grid[j] == 0 {
            1int
        } else {
            0int
        }) + (if j < n && v == 0 {
            1int
        } else {
            0int
        }),
    decreases n,
{
    if n > 0 {
        lemma_zeros_update(grid, n - 1, j, v);
    }
}

/// A prefix with zero count 0 has no zero cell.
proof fn lemma_zeros_none(grid: Seq<usize>, n: int)
    requires
        0 <= n <= grid.len(),
        zeros_below(grid, n) == 0,
    ensures
        forall|i: int| 0 <= i < n ==> #[trigger] grid[i] != 0,
    decreases n,
{
    if n > 0 {
        assert(zeros_below(grid, n - 1) >= 0) by {
            lemma_zeros_nonneg(grid, n - 1);
        }
        lemma_zeros_none(grid, n - 1);
    }
}

/// A zero count is never negative.
proof fn lemma_zeros_nonneg(grid: Seq<usize>, n: int)
    ensures
        zeros_below(grid, n) >= 0,
    decreases n,
{
    if n > 0 {
        lemma_zeros_nonneg(grid, n - 1);
    }
}

/// Placing the knight on an unvisited, on-board square other than its own
/// keeps the board well-formed.
proof fn lemma_place_wf(m: Model, x: int, y: int)
    requires
        m.wf(),
        m.moves < 63,
        valid_at(x, y),
        !visited_at(m.grid, x, y),
        (x, y) != m.horse,
    ensures
        place(m, x, y).wf(),
{
    let oi = cell_idx(m.horse.0, m.horse.1);
    let ni = cell_idx(x, y);
    let w = (m.moves + 1) as usize;
    let g1 = m.grid.update(oi, w);
    let g2 = g1.update(ni, 64usize);
    let p = place(m, x, y);
    assert(oi != ni);
    assert(p.grid == g2);
    assert(w == m.moves + 1);
    // The start square keeps (or takes) the value 1.
    if m.moves == 0 {
        assert(g2[oi] == 1);
    } else {
        assert(m.grid[cell_idx(m.start.0, m.start.1)] == 1);
        assert(cell_idx(m.start.0, m.start.1) != oi);
        assert(cell_idx(m.start.0, m.start.1) != ni);
    }
    // Every order value 1..=moves+1 is still present somewhere.
    assert forall|v: int| 1 <= v <= p.moves implies #[trigger] has_value(p.grid, v) by {
        if v <= m.moves {
            assert(has_value(m.grid, v));
            let i = choose|i: int| 0 <= i < 64 && #[trigger] m.grid[i] == v;
            assert(m.grid[i] == v);
            assert(i != oi && i != ni);
            assert(g2[i] == v);
        } else {
            assert(g2[oi] == v);
        }
    }
    // Zero count: the target square loses its zero; the old horse square
    // loses one too when this is the first move.
    lemma_zeros_update(m.grid, 64, oi, w);
    lemma_zeros_update(g1, 64, ni, 64usize);
    assert(g1[ni] == m.grid[ni]);
}

/// On a solved board no square is left untouched: the orders 1 through 63
/// and the sentinel 64 each mark exactly one square, and no cell is zero.
pub proof fn lemma_solved_board_complete(m: Model)
    requires
        m.wf(),
        m.moves == 63,
    ensures
        forall|i: int| 0 <= i < 64 ==> #[trigger] m.grid[i] != 0,
        forall|v: int| 1 <= v <= 64 ==> #[trigger] has_value(m.grid, v),
        forall|i: int, j: int|
            0 <= i < 64 && 0 <= j < 64 && #[trigger] m.grid[i] == #[trigger] m.grid[j] ==> i == j,
{
    lemma_zeros_none(m.grid, 64);
    assert(m.grid[cell_idx(m.horse.0, m.horse.1)] == 64);
    assert forall|v: int| 1 <= v <= 64 implies #[trigger] has_value(m.grid, v) by {
        if v == 64 {
            assert(0 <= cell_idx(m.horse.0, m.horse.1) < 64);
        }
    }
}

/// In a grid of all zeros, every prefix counts only zeros.
proof fn lemma_zeros_of_all_zero(grid: Seq<usize>, i: int)
    requires
        0 <= i <= grid.len(),
        forall|j: int| 0 <= j < grid.len() ==> #[trigger] grid[j] == 0,
    ensures
        zeros_below(grid, i) == i,
    decreases i,
{
    if i > 0 {
        lemma_zeros_of_all_zero(grid, i - 1);
    }
}

/// The square reached from (x, y) by the i-th knight move, or `None` when it
/// falls off the board. Offsets that would go below zero are rejected by an
/// explicit bounds test instead of letting unsigned arithmetic wrap.
fn knight_target(x: usize, y: usize, i: usize) -> (r: Option<Position>)
    requires
        valid_at(x as int, y as int),
        i < 8,
    ensures
        match r {
            Some(p) => p@ == target_of(x as int, y as int, i as int) && valid_at(p@.0, p@.1),
            None => !valid_at(
                target_of(x as int, y as int, i as int).0,
                target_of(x as int, y as int, i as int).1,
            ),
        },
{
    match i {
        0 => if x >= 1 && y + 2 < 8 {
            Some(Position { x: x - 1, y: y + 2 })
        } else {
            None
        },
        1 => if x + 1 < 8 && y + 2 < 8 {
            Some(Position { x: x + 1, y: y + 2 })
        } else {
            None
        },
        2 => if x + 1 < 8 && y >= 2 {
            Some(Position { x: x + 1, y: y - 2 })
        } else {
            None
        },
        3 => if x >= 1 && y >= 2 {
            Some(Position { x: x - 1, y: y - 2 })
        } else {
            None
        },
        4 => if x >= 2 && y + 1 < 8 {
            Some(Position { x: x - 2, y: y + 1 })
        } else {
            None
        },
        5 => if x + 2 < 8 && y + 1 < 8 {
            Some(Position { x: x + 2, y: y + 1 })
        } else {
            None
        },
        6 => if x + 2 < 8 && y >= 1 {
            Some(Position { x: x + 2, y: y - 1 })
        } else {
            None
        },
        _ => if x >= 2 && y >= 1 {
            Some(Position { x: x - 2, y: y - 1 })
        } else {
            None
        },
    }
}

impl Board {
    /// An empty board with the knight placed at (x, y). Callers validate the
    /// coordinates beforehand; the grid starts with every square untouched.
    pub fn new(x: usize, y: usize) -> (r: Board)
        requires
            valid_at(x as int, y as int),
        ensures
            r@ == init_model(x as int, y as int),
            r@.wf(),
    {
        let b = Board {
            cells: [0; 64],
            horse: Position { x, y },
            start_position: Position { x, y },
            total_moves: 0,
        };
        proof {
            assert(b@.grid =~= init_model(x as int, y as int).grid);
            lemma_zeros_of_all_zero(b@.grid, 64);
        }
        b
    }

    /// True iff every square has been visited: 63 moves from the start cover
    /// all 64 squares.
    pub fn is_solved(&self) -> (r: bool)
        ensures
            r == (self@.moves == 63),
    {
        self.total_moves == BOARD_SIZE * BOARD_SIZE - 1
    }

    /// True iff both coordinates of `pos` lie on the board.
    pub fn valid_position(&self, pos: &Position) -> (r: bool)
        ensures
            r == valid_at(pos@.0, pos@.1),
    {
        pos.x < BOARD_SIZE && pos.y < BOARD_SIZE
    }

    /// True iff the square at `pos` carries a mark. `pos` must be on the
    /// board.
    pub fn visited_position(&self, pos: &Position) -> (r: bool)
        requires
            valid_at(pos@.0, pos@.1),
        ensures
            r == visited_at(self@.grid, pos@.0, pos@.1),
    {
        self.cells[pos.x + pos.y * BOARD_SIZE] != 0
    }

    /// Applies one move: stamps the knight's current square with the next
    /// order value, puts the knight on (x, y), and marks that square with
    /// the sentinel. The move counter grows by exactly one, and nothing else
    /// changes the counter. Callers pass only squares that `possible_moves`
    /// produced, which the preconditions express.
    pub fn place_horse(&mut self, x: usize, y: usize) -> (pos: Position)
        requires
            old(self)@.wf(),
            old(self)@.moves < 63,
            valid_at(x as int, y as int),
            !visited_at(old(self)@.grid, x as int, y as int),
            (x as int, y as int) != old(self)@.horse,
        ensures
            final(self)@ == place(old(self)@, x as int, y as int),
            final(self)@.wf(),
            final(self)@.moves == old(self)@.moves + 1,
            final(self)@.start == old(self)@.start,
            pos@ == (x as int, y as int),
    {
        proof {
            lemma_place_wf(old(self)@, x as int, y as int);
        }
        let pos = Position { x, y };
        self.total_moves = self.total_moves + 1;
        let oi = self.horse.x + self.horse.y * BOARD_SIZE;
        self.cells[oi] = self.total_moves;
        self.horse = pos;
        let ni = x + y * BOARD_SIZE;
        self.cells[ni] = BOARD_SIZE * BOARD_SIZE;
        proof {
            assert(self@.grid =~= place(old(self)@, x as int, y as int).grid);
        }
        pos
    }

    /// The legal knight moves with (x, y) as origin, in the fixed generation
    /// order: every returned square is on the board, unvisited, and distinct
    /// from the origin.
    pub fn possible_moves(&self, x: usize, y: usize) -> (r: Vec<Position>)
        requires
            valid_at(x as int, y as int),
        ensures
            pos_views(r@) == knight_moves(self@.grid, x as int, y as int),
            forall|k: int|
                0 <= k < r@.len() ==> valid_at((#[trigger] r@[k])@.0, r@[k]@.1) && !visited_at(
                    self@.grid,
                    r@[k]@.0,
                    r@[k]@.1,
                ) && r@[k]@ != (x as int, y as int),
    {
        let ghost g = self@.grid;
        let mut valid_positions: Vec<Position> = Vec::new();
        let mut i: usize = 0;
        while i < 8
            invariant
                valid_at(x as int, y as int),
                g == self@.grid,
                i <= 8,
                pos_views(valid_positions@) + moves_from(g, x as int, y as int, i as int)
                    == knight_moves(g, x as int, y as int),
                forall|k: int|
                    0 <= k < valid_positions@.len() ==> valid_at(
                        (#[trigger] valid_positions@[k])@.0,
                        valid_positions@[k]@.1,
                    ) && !visited_at(g, valid_positions@[k]@.0, valid_positions@[k]@.1)
                        && valid_positions@[k]@ != (x as int, y as int),
            decreases 8 - i,
        {
            let ghost old_views = pos_views(valid_positions@);
            let ghost t = target_of(x as int, y as int, i as int);
            let ghost rest = moves_from(g, x as int, y as int, i as int + 1);
            match knight_target(x, y, i) {
                Some(p) => {
                    if !self.visited_position(&p) {
                        valid_positions.push(p);
                        proof {
                            assert(knight_dx(i as int) != 0);
                            assert(pos_views(valid_positions@) =~= old_views.push(p@));
                            assert(old_views.push(p@) + rest =~= old_views + (seq![t] + rest));
                        }
                    }
                }
                None => {},
            }
            i = i + 1;
        }
        valid_positions
    }

    /// True iff the finished tour is closed: the knight's final square
    /// attacks the square holding order value 1, the square the knight first
    /// moved away from (which is the starting square). The scan locates the
    /// sentinel and the value 1; the check is only meaningful on a solved
    /// board, which the precondition demands.
    pub fn is_closed(&self) -> (r: bool)
        requires
            self@.wf(),
            self@.moves == 63,
        ensures
            r == knight_attacks(self@.horse, self@.start),
    {
        let mut last_pos = Position { x: 0, y: 0 };
        let mut start_pos = Position { x: 0, y: 0 };
        let mut i: usize = 0;
        while i < 64
            invariant
                self@.wf(),
                self@.moves == 63,
                i <= 64,
                cell_idx(self@.horse.0, self@.horse.1) < i ==> last_pos@ == self@.horse,
                cell_idx(self@.start.0, self@.start.1) < i ==> start_pos@ == self@.start,
                valid_at(last_pos@.0, last_pos@.1),
                valid_at(start_pos@.0, start_pos@.1),
            decreases 64 - i,
        {
            let x = i % 8;
            let y = i / 8;
            proof {
                vstd::arithmetic::div_mod::lemma_fundamental_div_mod(i as int, 8);
            }
            let cell = self.cells[x + y * BOARD_SIZE];
            if cell == BOARD_SIZE * BOARD_SIZE {
                last_pos = Position { x, y };
            } else if cell == 1 {
                start_pos = Position { x, y };
            }
            i = i + 1;
        }
        let tmp = Board::new(last_pos.x, last_pos.y);
        let possible = tmp.possible_moves(last_pos.x, last_pos.y);
        let ghost zg = init_model(last_pos@.0, last_pos@.1).grid;
        let mut j: usize = 0;
        while j < possible.len()
            invariant
                self@.wf(),
                self@.moves == 63,
                last_pos@ == self@.horse,
                start_pos@ == self@.start,
                zg == init_model(last_pos@.0, last_pos@.1).grid,
                pos_views(possible@) == knight_moves(zg, last_pos@.0, last_pos@.1),
                j <= possible@.len(),
                forall|k: int| 0 <= k < j ==> (#[trigger] possible@[k])@ != start_pos@,
            decreases possible@.len() - j,
        {
            if possible[j].x == start_pos.x && possible[j].y == start_pos.y {
                proof {
                    assert(pos_views(possible@)[j as int] == start_pos@);
                    assert(knight_moves(zg, last_pos@.0, last_pos@.1).contains(start_pos@));
                    lemma_moves_from_contains(zg, last_pos@.0, last_pos@.1, 0, start_pos@);
                }
                return true;
            }
            j = j + 1;
        }
        proof {
            lemma_moves_from_contains(zg, last_pos@.0, last_pos@.1, 0, start_pos@);
            assert(!visited_at(zg, start_pos@.0, start_pos@.1));
            assert forall|k: int|
                0 <= k < pos_views(possible@).len() implies #[trigger] pos_views(possible@)[k]
                != start_pos@ by {
                assert(pos_views(possible@)[k] == possible@[k]@);
            }
            assert(!knight_moves(zg, last_pos@.0, last_pos@.1).contains(start_pos@));
        }
        false
    }
}

} // verus!

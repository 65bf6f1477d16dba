//! Exhaustive depth-first backtracking search for a Knight's Tour.
//!
//! The executable solver is proved to return exactly what the recursive
//! `search` specification computes on the starting board, so the search is
//! deterministic: two runs from the same square yield the same board, the
//! same outcome, and the same iteration count. Each invocation explores the
//! legal moves in the fixed generation order on a private copy of the board
//! and propagates the first success; a failed invocation hands the caller's
//! board back unchanged.

use vstd::prelude::*;

use crate::board::{
    Board, Model, init_model, knight_moves, place, pos_views, valid_at, visited_at,
};

verus! {

/// Search strategies. Only unguided exhaustive backtracking exists; no move
/// ordering heuristic is applied.
pub enum Heuristic {
    Unguided,
}

/// `a + n` capped at the largest counter value: iteration counting
/// saturates instead of wrapping.
pub open spec fn sat_add(a: int, n: int) -> int {
    if a + n <= usize::MAX {
        a + n
    } else {
        usize::MAX as int
    }
}

/// Saturating addition composes: adding in two steps or in one gives the
/// same capped value, for non-negative addends.
pub proof fn lemma_sat_add_assoc(a: int, x: int, y: int)
    requires
        0 <= a,
        0 <= x,
        0 <= y,
    ensures
        sat_add(sat_add(a, x), y) == sat_add(a, x + y),
{
}

/// Adds one search iteration to the shared progress counter, saturating at
/// the largest value. The counter is advisory: an outside observer renders
/// it, and it never influences the search.
pub fn increment_counter(counter: &mut usize)
    ensures
        *final(counter) == sat_add(*old(counter) as int, 1),
{
    if *counter < usize::MAX {
        *counter = *counter + 1;
    }
}

/// Resets the progress counter to zero, ready for the next solve attempt.
pub fn decrement_counter(counter: &mut usize)
    ensures
        *final(counter) == 0,
{
    *counter = 0;
}

/// What one solver invocation yields: the resulting board model, whether a
/// full tour was found, and how many invocations ran, this one included.
pub ghost struct SearchResult {
    pub board: Model,
    pub solved: bool,
    pub count: nat,
}

/// The legal knight moves from the knight's current square.
pub open spec fn cands(m: Model) -> Seq<(int, int)> {
    knight_moves(m.grid, m.horse.0, m.horse.1)
}

/// Specification of one backtracking invocation on board `m`: a board with
/// all 63 moves made is solved; otherwise each legal knight move is tried in
/// generation order, recursing on the board with that move applied, and the
/// first success is returned. On failure the original board comes back.
pub open spec fn search(m: Model) -> SearchResult
    decreases 64 - m.moves, cands(m).len() + 1,
{
    if m.moves < 0 || m.moves >= 63 {
        SearchResult { board: m, solved: m.moves == 63, count: 1 }
    } else {
        let t = try_moves(m, cands(m), 0);
        SearchResult {
            board: if t.solved {
                t.board
            } else {
                m
            },
            solved: t.solved,
            count: (t.count + 1) as nat,
        }
    }
}

/// Specification of the candidate loop: try the moves `cs[k..]` in order,
/// each on `place(m, ..)` of the one parent board `m`; the first success
/// wins and no later candidate is tried. The count totals the invocations
/// of the explored branches.
pub open spec fn try_moves(m: Model, cs: Seq<(int, int)>, k: int) -> SearchResult
    decreases 64 - m.moves, cs.len() - k,
{
    if m.moves < 0 || m.moves >= 63 || k < 0 || k >= cs.len() {
        SearchResult { board: m, solved: false, count: 0 }
    } else {
        let t = search(place(m, cs[k].0, cs[k].1));
        if t.solved {
            t
        } else {
            let u = try_moves(m, cs, k + 1);
            SearchResult { board: u.board, solved: u.solved, count: (t.count + u.count) as nat }
        }
    }
}

/// A failed search leaves no trace: the board handed back is the input
/// board itself, so exploration never corrupts the state it started from.
pub proof fn lemma_search_failed_unchanged(m: Model)
    requires
        !search(m).solved,
    ensures
        search(m).board == m,
{
}

/// Backtracking isolates sibling branches: when the branch for candidate
/// `k` fails, the remaining exploration equals trying the candidates from
/// `k + 1` on the very same parent board, and both branches were built by
/// `place` on that one board, never on a sibling's leftover state.
pub proof fn lemma_sibling_branches_isolated(m: Model, cs: Seq<(int, int)>, k: int)
    requires
        0 <= m.moves < 63,
        0 <= k < cs.len(),
        !search(place(m, cs[k].0, cs[k].1)).solved,
    ensures
        try_moves(m, cs, k).board == try_moves(m, cs, k + 1).board,
        try_moves(m, cs, k).solved == try_moves(m, cs, k + 1).solved,
        !try_moves(m, cs, k + 1).solved ==> try_moves(m, cs, k).board == m,
{
    if !try_moves(m, cs, k + 1).solved {
        lemma_try_moves_failed_unchanged(m, cs, k + 1);
    }
}

/// One backtracking invocation: bumps the progress counter, returns at once
/// on a solved board, and otherwise tries each legal move in generation
/// order on a private copy of the board, recursing and propagating the
/// first success. Failure hands the caller's board back unchanged. The
/// result is exactly what the `search` specification computes, so the
/// solver is deterministic, and the counter grows by exactly the number of
/// invocations made (saturating at the largest counter value).
pub fn brute_force_rec(b: Board, level: i32, counter: &mut usize) -> (r: (Board, bool))
    requires
        b@.wf(),
        0 <= level,
        level + 64 - b@.moves <= i32::MAX,
    ensures
        r.0@ == search(b@).board,
        r.1 == search(b@).solved,
        r.0@.wf(),
        r.1 == (r.0@.moves == 63),
        !r.1 ==> r.0@ == b@,
        *final(counter) == sat_add(*old(counter) as int, search(b@).count as int),
    decreases 63 - b@.moves,
{
    let ghost c0 = *old(counter) as int;
    increment_counter(counter);
    if b.is_solved() {
        return (b, true);
    }
    let ghost m = b@;
    let ghost cs = cands(m);
    let possible = b.possible_moves(b.horse.x, b.horse.y);
    let mut idx: usize = 0;
    let ghost mut spent: int = 0;
    while idx < possible.len()
        invariant
            b@ == m,
            m.wf(),
            0 <= m.moves < 63,
            0 <= level,
            level + 64 - m.moves <= i32::MAX,
            cs == cands(m),
            pos_views(possible@) == cs,
            forall|k: int|
                0 <= k < possible@.len() ==> valid_at((#[trigger] possible@[k])@.0, possible@[k]@.1)
                    && !visited_at(m.grid, possible@[k]@.0, possible@[k]@.1) && possible@[k]@
                    != m.horse,
            idx <= possible@.len(),
            0 <= spent,
            *counter as int == sat_add(c0, 1 + spent),
            0 <= c0,
            c0 == *old(counter) as int,
            try_moves(m, cs, 0).board == try_moves(m, cs, idx as int).board,
            try_moves(m, cs, 0).solved == try_moves(m, cs, idx as int).solved,
            try_moves(m, cs, 0).count == spent + try_moves(m, cs, idx as int).count,
        decreases possible@.len() - idx,
    {
        let pos = possible[idx];
        proof {
            assert(cs[idx as int] == pos@);
        }
        let mut b2 = b;
        b2.place_horse(pos.x, pos.y);
        let (rb, ok) = brute_force_rec(b2, level + 1, counter);
        let ghost t = search(place(m, pos@.0, pos@.1));
        proof {
            lemma_sat_add_assoc(c0, 1 + spent, t.count as int);
        }
        if ok {
            return (rb, true);
        }
        proof {
            spent = spent + t.count;
        }
        idx = idx + 1;
    }
    (b, false)
}

/// Runs the exhaustive backtracking search for a Knight's Tour starting at
/// (base_x, base_y). Returns the final board and whether a full tour was
/// found; on failure the fresh starting board comes back. The outcome is
/// exactly what the `search` specification computes on the fresh board, so
/// repeated runs from one square give the same board and add the same
/// amount to the iteration counter.
#[allow(unused_variables)]
pub fn brute_force_solve(base_x: usize, base_y: usize, h: Heuristic, visualize: bool, counter: &mut usize) -> (r: (Board, bool))
    requires
        valid_at(base_x as int, base_y as int),
    ensures
        r.0@ == search(init_model(base_x as int, base_y as int)).board,
        r.1 == search(init_model(base_x as int, base_y as int)).solved,
        r.0@.wf(),
        r.1 == (r.0@.moves == 63),
        !r.1 ==> r.0@ == init_model(base_x as int, base_y as int),
        *final(counter) == sat_add(
            *old(counter) as int,
            search(init_model(base_x as int, base_y as int)).count as int,
        ),
{
    match h {
        Heuristic::Unguided => {
            let b = Board::new(base_x, base_y);
            let (s, t) = brute_force_rec(b, 0, counter);
            (s, t)
        },
    }
}

/// A failed candidate loop hands back the parent board unchanged.
pub proof fn lemma_try_moves_failed_unchanged(m: Model, cs: Seq<(int, int)>, k: int)
    requires
        !try_moves(m, cs, k).solved,
    ensures
        try_moves(m, cs, k).board == m,
    decreases 64 - m.moves, cs.len() - k,
{
    if !(m.moves < 0 || m.moves >= 63 || k < 0 || k >= cs.len()) {
        if !search(place(m, cs[k].0, cs[k].1)).solved {
            lemma_try_moves_failed_unchanged(m, cs, k + 1);
        }
    }
}

} // verus!

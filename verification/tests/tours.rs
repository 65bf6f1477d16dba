use cavalo::board::{Board, Position};
use cavalo::solver::{brute_force_rec, decrement_counter, increment_counter};

/// Fills the board from (0, 0) in boustrophedon row order, leaving out the
/// square (skip_x, skip_y). Every placement targets a valid unvisited square,
/// as `place_horse` demands. Passing (0, 0) as the skipped square yields the
/// plain full fill of 63 moves.
fn fill_board_skipping(skip_x: usize, skip_y: usize, place_skipped_last: bool) -> Board {
    let mut b = Board::new(0, 0);
    for y in 0..8usize {
        if y % 2 == 0 {
            for x in 0..8usize {
                if (x == 0 && y == 0) || (x == skip_x && y == skip_y) {
                    continue;
                }
                b.place_horse(x, y);
            }
        } else {
            for x in (0..8usize).rev() {
                if x == skip_x && y == skip_y {
                    continue;
                }
                b.place_horse(x, y);
            }
        }
    }
    if place_skipped_last {
        b.place_horse(skip_x, skip_y);
    }
    b
}

#[test]
fn full_fill_solves_after_63_moves() {
    let b = fill_board_skipping(0, 0, false);
    assert_eq!(b.total_moves, 63);
    assert!(b.is_solved());
    // Each of 1..=63 appears exactly once, plus one sentinel, no zeros left.
    let mut seen = [0usize; 65];
    for i in 0..64usize {
        let v = b.cells[i];
        assert!(v >= 1 && v <= 64);
        seen[v] += 1;
    }
    for v in 1..=64usize {
        assert_eq!(seen[v], 1);
    }
}

#[test]
fn open_tour_is_not_closed() {
    // The fill ends on (0, 7), which does not attack the first-left square
    // (0, 0).
    let b = fill_board_skipping(0, 0, false);
    assert!(b.is_solved());
    assert_eq!(b.horse, Position { x: 0, y: 7 });
    assert!(!b.is_closed());
}

#[test]
fn closed_tour_is_detected() {
    // The fill ends on (1, 2), which attacks the first-left square (0, 0).
    let b = fill_board_skipping(1, 2, true);
    assert!(b.is_solved());
    assert_eq!(b.horse, Position { x: 1, y: 2 });
    assert!(b.is_closed());
}

#[test]
fn solver_finishes_last_move() {
    // 62 moves made, horse on (0, 7), and the one free square (2, 6) is a
    // knight move away: the search must find it and report success.
    let b = fill_board_skipping(2, 6, false);
    assert_eq!(b.total_moves, 62);
    assert_eq!(b.horse, Position { x: 0, y: 7 });
    let mut counter = 0usize;
    let (solved_board, solved) = brute_force_rec(b, 0, &mut counter);
    assert!(solved);
    assert!(solved_board.is_solved());
    assert_eq!(solved_board.horse, Position { x: 2, y: 6 });
    assert_eq!(solved_board.cells[0 + 7 * 8], 63);
    assert_eq!(solved_board.cells[2 + 6 * 8], 64);
    // Two invocations ran: the root and the successful leaf.
    assert_eq!(counter, 2);
}

#[test]
fn solver_reports_exhaustion_unchanged() {
    // 62 moves made, horse on (1, 7); the one free square (0, 7) is not a
    // knight move away and no unvisited square is reachable: exhaustion.
    let b = fill_board_skipping(0, 7, false);
    assert_eq!(b.total_moves, 62);
    assert_eq!(b.horse, Position { x: 1, y: 7 });
    let before = b.cells;
    let mut counter = 0usize;
    let (back, solved) = brute_force_rec(b, 0, &mut counter);
    assert!(!solved);
    // The board comes back exactly as it went in.
    assert_eq!(back.cells, before);
    assert_eq!(back.total_moves, 62);
    assert_eq!(back.horse, Position { x: 1, y: 7 });
    assert_eq!(counter, 1);
}

#[test]
fn sibling_branches_observe_identical_grids() {
    let b = Board::new(0, 0);
    let snapshot = b.cells;
    // First branch works on a private copy.
    let mut branch1 = b;
    branch1.place_horse(1, 2);
    assert_eq!(b.cells, snapshot);
    // The sibling branch starts from the identical initial grid.
    let mut branch2 = b;
    assert_eq!(branch2.cells, snapshot);
    branch2.place_horse(2, 1);
    assert_eq!(b.cells, snapshot);
    assert_eq!(branch1.cells[0], 1);
    assert_eq!(branch2.cells[0], 1);
}

#[test]
fn search_leaves_caller_board_untouched() {
    let b = fill_board_skipping(2, 6, false);
    let before = b.cells;
    let mut counter = 0usize;
    let (_, solved) = brute_force_rec(b, 0, &mut counter);
    assert!(solved);
    // The caller's own board is unaffected by the exploration.
    assert_eq!(b.cells, before);
    assert_eq!(b.total_moves, 62);
}

#[test]
fn solver_is_deterministic() {
    let b1 = fill_board_skipping(2, 6, false);
    let b2 = fill_board_skipping(2, 6, false);
    let mut c1 = 0usize;
    let mut c2 = 0usize;
    let (r1, ok1) = brute_force_rec(b1, 0, &mut c1);
    let (r2, ok2) = brute_force_rec(b2, 0, &mut c2);
    assert_eq!(ok1, ok2);
    assert_eq!(c1, c2);
    assert_eq!(r1.cells, r2.cells);
    assert_eq!(r1.horse, r2.horse);
    assert_eq!(r1.total_moves, r2.total_moves);

    let d1 = fill_board_skipping(0, 7, false);
    let d2 = fill_board_skipping(0, 7, false);
    let mut e1 = 0usize;
    let mut e2 = 0usize;
    let (s1, no1) = brute_force_rec(d1, 0, &mut e1);
    let (s2, no2) = brute_force_rec(d2, 0, &mut e2);
    assert_eq!(no1, no2);
    assert_eq!(e1, e2);
    assert_eq!(s1.cells, s2.cells);
}

#[test]
fn counter_increments_and_saturates() {
    let mut c = 0usize;
    increment_counter(&mut c);
    assert_eq!(c, 1);
    increment_counter(&mut c);
    assert_eq!(c, 2);
    let mut m = usize::MAX;
    increment_counter(&mut m);
    assert_eq!(m, usize::MAX);
}

#[test]
fn counter_resets_to_zero() {
    let mut c = 17usize;
    decrement_counter(&mut c);
    assert_eq!(c, 0);
}

use cavalo::board::{Board, Position, BOARD_SIZE};

#[test]
fn new_board_is_empty() {
    let b = Board::new(3, 4);
    assert_eq!(b.total_moves, 0);
    assert_eq!(b.horse, Position { x: 3, y: 4 });
    assert_eq!(b.start_position, Position { x: 3, y: 4 });
    for i in 0..64usize {
        assert_eq!(b.cells[i], 0);
    }
}

#[test]
fn fresh_board_is_not_solved() {
    let b = Board::new(0, 0);
    assert!(!b.is_solved());
}

#[test]
fn valid_position_bounds() {
    let b = Board::new(0, 0);
    assert!(b.valid_position(&Position { x: 0, y: 0 }));
    assert!(b.valid_position(&Position { x: 7, y: 7 }));
    assert!(!b.valid_position(&Position { x: 8, y: 0 }));
    assert!(!b.valid_position(&Position { x: 0, y: 8 }));
}

#[test]
fn visited_position_tracks_marks() {
    let mut b = Board::new(0, 0);
    // The starting square carries no mark until the knight leaves it.
    assert!(!b.visited_position(&Position { x: 0, y: 0 }));
    b.place_horse(1, 2);
    assert!(b.visited_position(&Position { x: 0, y: 0 }));
    assert!(b.visited_position(&Position { x: 1, y: 2 }));
    assert!(!b.visited_position(&Position { x: 5, y: 5 }));
}

#[test]
fn place_horse_stamps_and_increments() {
    let mut b = Board::new(0, 0);
    let pos = b.place_horse(1, 2);
    assert_eq!(pos, Position { x: 1, y: 2 });
    assert_eq!(b.total_moves, 1);
    assert_eq!(b.cells[0], 1); // the square left behind holds the order value
    assert_eq!(b.cells[1 + 2 * BOARD_SIZE], BOARD_SIZE * BOARD_SIZE); // sentinel
    assert_eq!(b.horse, Position { x: 1, y: 2 });
    let pos2 = b.place_horse(2, 4);
    assert_eq!(pos2, Position { x: 2, y: 4 });
    assert_eq!(b.total_moves, 2);
    assert_eq!(b.cells[1 + 2 * BOARD_SIZE], 2);
    assert_eq!(b.cells[2 + 4 * BOARD_SIZE], 64);
}

#[test]
fn corner_moves_from_fresh_board() {
    let b = Board::new(0, 0);
    let moves = b.possible_moves(0, 0);
    let got: Vec<(usize, usize)> = moves.iter().map(|p| (p.x, p.y)).collect();
    assert_eq!(got, vec![(1, 2), (2, 1)]);
}

#[test]
fn center_moves_in_generation_order() {
    let b = Board::new(3, 3);
    let moves = b.possible_moves(3, 3);
    let got: Vec<(usize, usize)> = moves.iter().map(|p| (p.x, p.y)).collect();
    assert_eq!(
        got,
        vec![(2, 5), (4, 5), (4, 1), (2, 1), (1, 4), (5, 4), (5, 2), (1, 2)]
    );
}

#[test]
fn moves_exclude_visited_squares() {
    let mut b = Board::new(0, 0);
    b.place_horse(1, 2);
    let moves = b.possible_moves(1, 2);
    let got: Vec<(usize, usize)> = moves.iter().map(|p| (p.x, p.y)).collect();
    // (0, 0) is a knight move from (1, 2) but already visited.
    assert_eq!(got, vec![(0, 4), (2, 4), (2, 0), (3, 3), (3, 1)]);
}

#[test]
fn moves_stay_on_board_from_every_square() {
    for x in 0..8usize {
        for y in 0..8usize {
            let b = Board::new(x, y);
            for p in b.possible_moves(x, y) {
                assert!(p.x < 8 && p.y < 8);
                assert!(!b.visited_position(&p));
            }
        }
    }
}

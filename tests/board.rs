use sliding_puzzle::board::BoardError;
use sliding_puzzle::board::PuzzleBoard;

fn rows_of(values: &[&[usize]]) -> Vec<Vec<usize>> {
    values.iter().map(|r| r.to_vec()).collect()
}

#[test]
fn three_by_three_solved_layout() {
    let b = PuzzleBoard::new(3, 3);
    assert_eq!(b.grid(), rows_of(&[&[7, 8, 0], &[4, 5, 6], &[1, 2, 3]]));
    assert_eq!(b.locate_empty(), (2, 0));
    assert!(b.is_solved());
}

#[test]
fn three_by_three_first_move() {
    let mut b = PuzzleBoard::new(3, 3);
    assert_eq!(b.is_move_legal(0, 0), Ok(false));
    assert_eq!(b.is_move_legal(0, 2), Ok(false));
    assert_eq!(b.is_move_legal(1, 0), Ok(true));
    assert_eq!(b.is_move_legal(2, 1), Ok(true));
    assert_eq!(b.try_move(1, 0), Ok(true));
    assert_eq!(b.grid(), rows_of(&[&[7, 0, 8], &[4, 5, 6], &[1, 2, 3]]));
    assert_eq!(b.locate_empty(), (1, 0));
    assert!(!b.is_solved());
}

#[test]
fn rectangular_solved_layout() {
    let b = PuzzleBoard::new(2, 3);
    assert_eq!(b.grid(), rows_of(&[&[4, 5, 0], &[1, 2, 3]]));
    assert_eq!(b.rows(), 2);
    assert_eq!(b.cols(), 3);
    assert_eq!(b.get(0, 1), Ok(1));
    assert_eq!(b.get(2, 0), Ok(0));
    assert_eq!(b.get(1, 0), Ok(5));
    assert_eq!(b.get(3, 0), Err(BoardError::OutOfBounds));
}

#[test]
fn solved_values_are_distinct_with_one_zero() {
    for side in 2..7 {
        let b = PuzzleBoard::new(side, side);
        let mut all: Vec<usize> = b.grid().into_iter().flatten().collect();
        all.sort();
        assert_eq!(all, (0..side * side).collect::<Vec<usize>>());
    }
}

#[test]
fn illegal_move_leaves_grid_unchanged() {
    let mut b = PuzzleBoard::new(4, 4);
    let before = b.grid();
    assert_eq!(b.try_move(0, 0), Ok(false));
    assert_eq!(b.try_move(2, 2), Ok(false));
    assert_eq!(b.grid(), before);
}

#[test]
fn out_of_bounds_move_is_refused() {
    let mut b = PuzzleBoard::new(3, 3);
    let before = b.grid();
    assert_eq!(b.is_move_legal(3, 2), Err(BoardError::OutOfBounds));
    assert_eq!(b.is_move_legal(2, 3), Err(BoardError::OutOfBounds));
    assert_eq!(b.try_move(3, 2), Err(BoardError::OutOfBounds));
    assert_eq!(b.try_move(usize::MAX, 0), Err(BoardError::OutOfBounds));
    assert_eq!(b.grid(), before);
}

#[test]
fn move_then_inverse_restores_grid() {
    let mut b = PuzzleBoard::new(3, 3);
    assert_eq!(b.try_move(1, 0), Ok(true));
    let before = b.grid();
    let (ec, er) = b.locate_empty();
    assert_eq!(b.try_move(0, 0), Ok(true));
    assert_eq!(b.try_move(ec, er), Ok(true));
    assert_eq!(b.grid(), before);
}

#[test]
fn reset_after_moves_matches_fresh_board() {
    let mut b = PuzzleBoard::new(4, 4);
    assert_eq!(b.try_move(3, 1), Ok(true));
    assert_eq!(b.try_move(2, 1), Ok(true));
    for _ in 0..20 {
        b.scramble_one_step();
    }
    b.reset();
    assert_eq!(b.grid(), PuzzleBoard::new(4, 4).grid());
    b.reset();
    assert_eq!(b.grid(), PuzzleBoard::new(4, 4).grid());
}

#[test]
fn legal_targets_of_solved_corner() {
    let b = PuzzleBoard::new(3, 3);
    assert_eq!(b.legal_targets(), vec![(1, 0), (2, 1)]);
    let mut c = PuzzleBoard::new(3, 3);
    assert_eq!(c.try_move(1, 0), Ok(true));
    assert_eq!(c.try_move(1, 1), Ok(true));
    assert_eq!(c.legal_targets(), vec![(0, 1), (2, 1), (1, 0), (1, 2)]);
}

#[test]
fn scramble_step_with_pick() {
    let mut b = PuzzleBoard::new(3, 3);
    b.scramble_step_with(1);
    assert_eq!(b.grid(), rows_of(&[&[7, 8, 6], &[4, 5, 0], &[1, 2, 3]]));
    b.scramble_step_with(5);
    assert_eq!(b.locate_empty(), (2, 2));
}

#[test]
fn scramble_is_undone_by_reversed_moves() {
    let mut b = PuzzleBoard::new(3, 3);
    let mut empties = Vec::new();
    for _ in 0..50 {
        let before = b.grid();
        empties.push(b.locate_empty());
        b.scramble_one_step();
        assert_ne!(b.grid(), before);
    }
    while let Some((c, r)) = empties.pop() {
        assert_eq!(b.try_move(c, r), Ok(true));
    }
    assert!(b.is_solved());
    assert_eq!(b.grid(), PuzzleBoard::new(3, 3).grid());
}

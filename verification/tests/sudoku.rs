use sudoku::sudoku::{Board, Cell};

#[test]
fn test_solve_valid() {
    let squares = [
        Cell::Constant(2),
        Cell::Empty,
        Cell::Empty,
        Cell::Empty,
        Cell::Constant(4),
        Cell::Empty,
        Cell::Empty,
        Cell::Empty,
        Cell::Empty,
        Cell::Empty,
        Cell::Constant(2),
        Cell::Empty,
        Cell::Empty,
        Cell::Empty,
        Cell::Empty,
        Cell::Empty,
    ];
    let correct_squares = [
        Cell::Constant(2),
        Cell::Variable(1),
        Cell::Variable(3),
        Cell::Variable(4),
        Cell::Constant(4),
        Cell::Variable(3),
        Cell::Variable(1),
        Cell::Variable(2),
        Cell::Variable(1),
        Cell::Variable(4),
        Cell::Constant(2),
        Cell::Variable(3),
        Cell::Variable(3),
        Cell::Variable(2),
        Cell::Variable(4),
        Cell::Variable(1),
    ];
    let board = Board::from(&squares);
    let correct_board = Board::from(&correct_squares);
    let solution = board.solve();
    assert_eq!(solution.unwrap(), correct_board);
}

#[test]
fn test_solve_invalid_return_none() {
    let squares = [
        Cell::Constant(2),
        Cell::Empty,
        Cell::Empty,
        Cell::Constant(1),
        Cell::Constant(4),
        Cell::Empty,
        Cell::Empty,
        Cell::Empty,
        Cell::Empty,
        Cell::Empty,
        Cell::Constant(2),
        Cell::Empty,
        Cell::Empty,
        Cell::Empty,
        Cell::Empty,
        Cell::Constant(1),
    ];
    let board = Board::from(&squares);
    let solution = board.solve();
    assert_eq!(solution, None);
}

#[test]
fn new_board_is_all_empty() {
    let board = Board::new(9);
    assert_eq!(board.n, 9);
    for y in 0..9 {
        for x in 0..9 {
            assert_eq!(board.get(x, y), Cell::Empty);
        }
    }
}

#[test]
fn from_takes_side_from_length() {
    let squares = vec![Cell::Empty; 16];
    let board = Board::from(&squares);
    assert_eq!(board.n, 4);
    assert_eq!(board.squares.len(), 16);
}

#[test]
fn set_then_get_returns_new_cell() {
    let board = Board::new(4);
    let updated = board.set(2, 1, Cell::Constant(3));
    assert_eq!(updated.get(2, 1), Cell::Constant(3));
    for y in 0..4 {
        for x in 0..4 {
            if (x, y) != (2, 1) {
                assert_eq!(updated.get(x, y), board.get(x, y));
            }
        }
    }
}

#[test]
fn set_leaves_original_unchanged() {
    let board = Board::new(4).set(0, 0, Cell::Variable(2));
    let _updated = board.set(0, 0, Cell::Constant(4)).set(3, 3, Cell::Constant(1));
    assert_eq!(board.get(0, 0), Cell::Variable(2));
    for y in 0..4 {
        for x in 0..4 {
            if (x, y) != (0, 0) {
                assert_eq!(board.get(x, y), Cell::Empty);
            }
        }
    }
}

#[test]
fn solve_leaves_original_unchanged() {
    let board = Board::new(4).set(1, 1, Cell::Constant(4));
    let solution = board.solve();
    assert!(solution.is_some());
    assert_eq!(board.get(1, 1), Cell::Constant(4));
    for y in 0..4 {
        for x in 0..4 {
            if (x, y) != (1, 1) {
                assert_eq!(board.get(x, y), Cell::Empty);
            }
        }
    }
}

#[test]
fn empty_nine_grid_solves() {
    let board = Board::new(9);
    let solution = board.solve().expect("an empty grid has a solution");
    for y in 0..9 {
        for x in 0..9 {
            match solution.get(x, y) {
                Cell::Variable(v) => assert!(1 <= v && v <= 9),
                other => panic!("expected a placed value, found {:?}", other),
            }
            assert!(solution.within_constraints(x, y));
        }
    }
}

#[test]
fn duplicate_givens_in_row_are_rejected() {
    let board = Board::new(4)
        .set(0, 0, Cell::Constant(2))
        .set(3, 0, Cell::Constant(2));
    assert_eq!(board.solve(), None);
}

#[test]
fn solved_board_solves_to_itself() {
    let squares = [
        Cell::Constant(2),
        Cell::Constant(1),
        Cell::Constant(3),
        Cell::Constant(4),
        Cell::Constant(4),
        Cell::Constant(3),
        Cell::Constant(1),
        Cell::Constant(2),
        Cell::Constant(1),
        Cell::Constant(4),
        Cell::Constant(2),
        Cell::Constant(3),
        Cell::Constant(3),
        Cell::Constant(2),
        Cell::Constant(4),
        Cell::Constant(1),
    ];
    let board = Board::from(&squares);
    let solution = board.solve();
    assert_eq!(solution, Some(Board::from(&squares)));
}

#[test]
fn one_cell_grid_solves() {
    let board = Board::new(1);
    let solution = board.solve().unwrap();
    assert_eq!(solution.get(0, 0), Cell::Variable(1));
}

#[test]
fn row_check_finds_duplicate() {
    let board = Board::new(4)
        .set(0, 2, Cell::Constant(3))
        .set(2, 2, Cell::Variable(3));
    assert!(!board.check_row_constraint(2));
    assert!(board.check_row_constraint(0));
    assert!(board.check_col_constraint(0));
    assert!(board.check_col_constraint(2));
}

#[test]
fn col_check_finds_duplicate() {
    let board = Board::new(4)
        .set(1, 0, Cell::Variable(2))
        .set(1, 3, Cell::Constant(2));
    assert!(!board.check_col_constraint(1));
    assert!(board.check_col_constraint(0));
    assert!(board.check_row_constraint(0));
    assert!(board.check_row_constraint(3));
}

#[test]
fn box_check_finds_duplicate() {
    let board = Board::new(4)
        .set(0, 0, Cell::Constant(1))
        .set(1, 1, Cell::Variable(1));
    assert!(!board.check_box_constraint(0, 0));
    assert!(!board.check_box_constraint(1, 1));
    assert!(board.check_box_constraint(2, 2));
    assert!(board.check_row_constraint(0));
    assert!(board.check_col_constraint(0));
}

#[test]
fn within_constraints_combines_all_three() {
    let ok = Board::new(4)
        .set(0, 0, Cell::Constant(1))
        .set(2, 2, Cell::Variable(1));
    assert!(ok.within_constraints(0, 0));
    assert!(ok.within_constraints(2, 2));
    let clash = ok.set(3, 3, Cell::Variable(1));
    assert!(!clash.within_constraints(3, 3));
    assert!(!clash.within_constraints(2, 2));
}

use sudoku::board::Board;

/// A fully filled, valid board: every row, column, and box holds 1 to 9.
fn init_valid_board() -> Board {
    Board::from_text(
        b"123456789\n\
          456789123\n\
          789123456\n\
          234567891\n\
          567891234\n\
          891234567\n\
          345678912\n\
          678912345\n\
          912345678\n",
    )
}

fn two_ones_in_a_row() -> Board {
    Board::from_text(b"11\n")
}

fn two_ones_in_a_col() -> Board {
    Board::from_text(b"1\n1\n")
}

fn two_ones_in_a_square() -> Board {
    Board::from_text(b"1\n01\n")
}

#[test]
fn test_new() {
    let board = Board::new(vec![1u8; 81]);
    board.print_simple();
}

#[test]
fn test_check_row() {
    let valid_board = init_valid_board();
    let empty_board = Board::init();
    for i in 0..9 {
        assert!(valid_board.check_row(i));
        assert!(empty_board.check_row(i));
    }

    // two 1s in the first row
    let invalid_board = two_ones_in_a_row();
    assert!(!invalid_board.check_row(0));
    for i in 1..9 {
        assert!(valid_board.check_row(i));
    }
}

#[test]
fn test_check_column() {
    let valid_board = init_valid_board();
    let empty_board = Board::init();
    for i in 0..9 {
        assert!(valid_board.check_column(i));
        assert!(empty_board.check_column(i));
    }

    // two 1s in the first column
    let invalid_board = two_ones_in_a_col();
    assert!(!invalid_board.check_column(0));
    for i in 1..9 {
        assert!(valid_board.check_column(i));
    }
}

#[test]
fn check_square() {
    let valid_board = init_valid_board();
    let empty_board = Board::init();
    for i in 0..3 {
        for j in 0..3 {
            assert!(valid_board.check_square(i, j));
            assert!(empty_board.check_square(i, j));
        }
    }

    // two 1s in the first square
    let invalid_board = two_ones_in_a_square();
    assert!(!invalid_board.check_square(0, 0));
    for i in 1..3 {
        for j in 1..3 {
            assert!(valid_board.check_square(i, j));
        }
    }
}

#[test]
fn test_check_complete() {
    let valid_board = init_valid_board();
    let empty_board = Board::init();
    assert!(valid_board.check_complete());
    assert!(empty_board.check_complete());

    // two 1s in the first row
    let invalid_board = two_ones_in_a_row();
    assert!(!invalid_board.check_complete());

    // two 1s in the first column
    let invalid_board = two_ones_in_a_col();
    assert!(!invalid_board.check_complete());

    // two 1s in the first square
    let invalid_board = two_ones_in_a_square();
    assert!(!invalid_board.check_complete());
}

#[test]
fn test_from_text_cells() {
    let board = Board::from_text(b"123456789\n987654321\n");
    let mut expected = vec![0u8; 81];
    for c in 0..9 {
        expected[c] = (c as u8) + 1;
        expected[9 + c] = 9 - (c as u8);
    }
    assert_eq!(board.cells(), expected);
}

#[test]
fn test_from_text_skips_other_characters() {
    // dots and spaces advance a column without filling a cell
    let board = Board::from_text(b".2.\n 5\n");
    let mut expected = vec![0u8; 81];
    expected[1] = 2;
    expected[10] = 5;
    assert_eq!(board.cells(), expected);
}

#[test]
fn test_from_text_ignores_overflowing_cells() {
    // a tenth row and a tenth column do not fit on the grid
    let mut text = Vec::new();
    for _ in 0..10 {
        text.extend_from_slice(b"9999999999\n");
    }
    let board = Board::from_text(&text);
    assert_eq!(board.cells(), vec![9u8; 81]);
    assert!(board.is_complete());
}

#[test]
fn test_get_and_set() {
    let mut board = Board::init();
    assert_eq!(board.get(4, 7), 0);
    board.set(4, 7, 6);
    assert_eq!(board.get(4, 7), 6);
    assert!(!board.is_complete());
    let copy = board.duplicate();
    assert_eq!(copy.cells(), board.cells());
}

#[test]
fn test_values_in_range() {
    let board = Board::new(vec![10u8; 81]);
    assert!(!board.values_in_range());
    assert!(Board::init().values_in_range());
    assert!(init_valid_board().values_in_range());
}

#[test]
fn test_free_of_queries() {
    let board = Board::from_text(b"123\n456\n789\n");
    assert!(!board.row_is_free_of(0, 2));
    assert!(board.row_is_free_of(0, 4));
    assert!(!board.column_is_free_of(0, 7));
    assert!(board.column_is_free_of(0, 9));
    assert!(!board.box_is_free_of(0, 0, 5));
    assert!(board.box_is_free_of(1, 1, 1));
}

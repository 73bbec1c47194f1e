use sudoku::board::Board;

fn partially_filled_board() -> Board {
    Board::new(vec![
        0, 1, 1, 0, 1, 0, 1, 0, 1, //
        1, 0, 1, 0, 1, 1, 0, 1, 1, //
        0, 1, 0, 1, 0, 0, 1, 0, 1, //
        0, 1, 0, 0, 0, 1, 0, 0, 1, //
        0, 0, 1, 0, 1, 0, 1, 0, 1, //
        0, 1, 0, 1, 1, 1, 0, 0, 1, //
        1, 1, 1, 0, 0, 1, 1, 0, 0, //
        0, 0, 0, 1, 1, 1, 0, 0, 1, //
        0, 1, 1, 0, 1, 0, 0, 1, 1,
    ])
}

#[test]
fn test_empty_print_simple() {
    let empty_board = Board::init();
    empty_board.print_simple();
}

#[test]
fn test_regular_board_print_simple() {
    let partial_full_board = partially_filled_board();
    partial_full_board.print_simple();
}

#[test]
fn test_empty_print_complete() {
    let empty_board = Board::init();
    empty_board.print_complete();
}

#[test]
fn test_regular_board_print_complete() {
    let partial_full_board = partially_filled_board();
    partial_full_board.print_complete();
}

#[test]
fn test_print_complete() {
    let board = Board::init();
    board.print_complete();
}

#[test]
fn test_print_simple() {
    let board = Board::init();
    board.print_simple();
}

#[test]
fn test_render_simple_exact() {
    let mut expected = String::new();
    for _ in 0..9 {
        expected.push_str(". . . . . . . . . \n");
    }
    assert_eq!(Board::init().render_simple(), expected);

    let board = Board::from_text(b"123456789\n");
    let mut lines = String::from("1 2 3 4 5 6 7 8 9 \n");
    for _ in 0..8 {
        lines.push_str(". . . . . . . . . \n");
    }
    assert_eq!(board.render_simple(), lines);
}

#[test]
fn test_render_complete_exact() {
    let board = Board::from_text(b"123456789\n");
    let mut expected = String::new();
    expected.push_str("┌───────┬───────┬───────┐\n");
    expected.push_str("│ 1 2 3 │ 4 5 6 │ 7 8 9 │\n");
    expected.push_str("│ . . . │ . . . │ . . . │\n");
    expected.push_str("│ . . . │ . . . │ . . . │\n");
    expected.push_str("├───────┼───────┼───────┤\n");
    for _ in 0..3 {
        expected.push_str("│ . . . │ . . . │ . . . │\n");
    }
    expected.push_str("├───────┼───────┼───────┤\n");
    for _ in 0..3 {
        expected.push_str("│ . . . │ . . . │ . . . │\n");
    }
    expected.push_str("└───────┴───────┴───────┘\n");
    assert_eq!(board.render_complete(), expected);
}

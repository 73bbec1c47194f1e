use sudoku::board::Board;
use sudoku::guess::Guess;
use sudoku::solver::BoardSolver;

/// A fully filled, valid board.
fn solved_board() -> Board {
    Board::from_text(
        b"123456789\n\
          456789123\n\
          789123456\n\
          234567891\n\
          567891234\n\
          891234567\n\
          345678912\n\
          678912345\n\
          912345678\n",
    )
}

/// The solved board with a scattering of cells blanked out.
fn easy_puzzle() -> Board {
    Board::from_text(
        b"1.3.5.7.9\n\
          .5678912.\n\
          78.123.56\n\
          2.456.891\n\
          567...234\n\
          89.234.67\n\
          34.678.12\n\
          .7891234.\n\
          9.2.4.6.8\n",
    )
}

fn sweep(solver: &mut BoardSolver) -> i32 {
    let mut counter = 0;
    for i in 0..9 {
        for j in 0..9 {
            counter += solver.exclude_matches(i, j).unwrap();
        }
    }
    solver.apply_hits();
    counter
}

fn test_exlcude_matches_on_board(board: Board) {
    board.print_simple();
    let mut solver = BoardSolver::from_board(board).unwrap();
    for i in 0..9 {
        for j in 0..9 {
            solver.exclude_matches(i, j).unwrap();
        }
    }
    solver.apply_hits();
    println!();
    solver.solving_board().print_simple();
    assert_ne!(solver.board_to_solve().cells(), solver.solving_board().cells());
    assert!(solver.solving_board().check_complete());
}

#[test]
fn test_exlcude_matches_on_row() {
    // eight digits in one row: propagation settles the ninth cell
    test_exlcude_matches_on_board(Board::from_text(b"12345678.\n"))
}

#[test]
fn test_exlcude_matches_on_column() {
    test_exlcude_matches_on_board(Board::from_text(b"1\n2\n3\n4\n5\n6\n7\n8\n"))
}

#[test]
fn test_exlcude_matches_on_square() {
    test_exlcude_matches_on_board(Board::from_text(b"123\n456\n78.\n"))
}

#[test]
fn test_propagation_fills_lone_gap() {
    // the first row holds every digit but 5; propagation alone must write 5
    let board = Board::from_text(b"1234.6789\n");
    let mut solver = BoardSolver::from_board(board).unwrap();
    let removed = sweep(&mut solver);
    assert!(removed > 0);
    assert_eq!(solver.solving_board().get(0, 4), 5);
}

#[test]
fn test_solve_solved_board_is_identity() {
    // solving an already solved, consistent grid returns it unchanged
    let board = solved_board();
    let solved = board.solve().unwrap();
    assert_eq!(solved.cells(), board.cells());
}

#[test]
fn test_solve_easy_puzzle() {
    let board = easy_puzzle();
    let solved = board.solve().unwrap();
    assert!(solved.is_complete());
    assert!(solved.check_complete());
    // every given keeps its value
    let given = board.cells();
    let got = solved.cells();
    for k in 0..81 {
        if given[k] != 0 {
            assert_eq!(given[k], got[k]);
        }
    }
    assert_eq!(got, solved_board().cells());
}

#[test]
fn test_solve_determinism() {
    // the same input solved twice gives byte-identical output
    let first = easy_puzzle().solve().unwrap();
    let second = easy_puzzle().solve().unwrap();
    assert_eq!(first.cells(), second.cells());
    assert_eq!(first.render_simple(), second.render_simple());

    let third = Board::init().solve().unwrap();
    let fourth = Board::init().solve().unwrap();
    assert_eq!(third.render_simple(), fourth.render_simple());
}

#[test]
fn test_search_path_on_empty_board() {
    // an empty board gives the first propagation sweep nothing to remove,
    // so only the search path can fill it; the result must be valid
    let mut probe = BoardSolver::from_board(Board::init()).unwrap();
    assert_eq!(sweep(&mut probe), 0);

    let solved = Board::init().solve().unwrap();
    assert!(solved.is_complete());
    assert!(solved.check_complete());
}

#[test]
fn test_unsolvable_duplicate_row() {
    // two 1s in the first row; the rest forces completion, and the final
    // consistency check must reject the grid
    let board = Board::from_text(
        b"11.......\n\
          456789123\n\
          789123456\n\
          234567891\n\
          567891234\n\
          891234567\n\
          345678912\n\
          678912345\n\
          912345678\n",
    );
    assert!(board.solve().is_err());
}

#[test]
fn test_unsolvable_complete_board() {
    // a filled grid that repeats a digit is reported unsolvable as it stands
    let mut board = solved_board();
    board.set(0, 1, 1);
    assert!(board.solve().is_err());
}

#[test]
fn test_from_board_rejects_out_of_range() {
    let board = Board::new(vec![10u8; 81]);
    assert!(BoardSolver::from_board(board).is_err());
    assert!(BoardSolver::from_board(Board::init()).is_ok());
}

#[test]
fn test_contradiction_is_reported() {
    // the empty cell of the first row can hold nothing: its row already
    // carries 1 to 8 and its column carries 9
    let board = Board::from_text(
        b"12345678.\n\
          ........9\n",
    );
    let mut solver = BoardSolver::from_board(board).unwrap();
    let mut saw_contradiction = false;
    for i in 0..9 {
        for j in 0..9 {
            if !saw_contradiction && solver.exclude_matches(i, j).is_err() {
                saw_contradiction = true;
            }
        }
    }
    assert!(saw_contradiction);
}

#[test]
fn test_guess_candidate_operations() {
    let mut g = Guess::Match([true; 9]);
    assert_eq!(g.count_matches(), 9);
    assert!(g.check(&5));
    assert!(!g.can_be_resolved());
    assert!(!g.is_unsolvable());

    g.exclude(4);
    assert!(!g.check(&5));
    assert_eq!(g.count_matches(), 8);

    for ix in 0..9 {
        if ix != 6 {
            g.exclude(ix);
        }
    }
    assert_eq!(g.count_matches(), 1);
    assert!(g.can_be_resolved());
    assert_eq!(g.first_match_ix(), 6);
    let settled = g.resolve();
    assert!(matches!(settled, Guess::Hit(7)));
    assert!(!settled.can_be_resolved());
    assert!(settled.check(&7));
    assert!(!settled.check(&6));

    g.exclude(6);
    assert!(g.is_unsolvable());

    let prior = Guess::Prior(3);
    assert!(prior.check(&3));
    assert!(!prior.check(&4));
    assert!(!prior.is_unsolvable());
}

#[test]
fn test_can_contain() {
    let board = Board::from_text(b"123\n456\n789\n");
    let solver = BoardSolver::from_board(board).unwrap();
    // (0, 8) shares a row with 1, 2, 3 but nothing else
    assert!(!solver.can_contain((0, 8), 1));
    assert!(solver.can_contain((0, 8), 4));
    // (8, 0) shares a column with 1, 4, 7
    assert!(!solver.can_contain((8, 0), 7));
    assert!(solver.can_contain((8, 0), 9));
    // (1, 1) sits inside the filled box
    assert!(!solver.can_contain((1, 1), 9));
}

#[test]
fn test_simulate_path_solves_a_stalled_board() {
    // an empty board stalls propagation at once; one speculative step must
    // hand back a full, consistent grid
    let solver = BoardSolver::from_board(Board::init()).unwrap();
    let board = solver.simulate_path().unwrap();
    assert!(board.is_complete());
    assert!(board.check_complete());
}

#[test]
fn test_simulate_path_reports_wrong_guess() {
    // every open cell still has all nine candidates, so the search commits
    // the first open cell, (0, 0), to 1; the trial then walls that cell's
    // box neighbour (1, 0) in completely, so the guess comes back wrong
    let board = Board::from_text(
        b"..3456789\n\
          .459.....\n\
          678......\n",
    );
    let solver = BoardSolver::from_board(board).unwrap();
    match solver.simulate_path() {
        Err(e) => {
            assert_eq!(e.pos, (0, 0));
            assert_eq!(e.wrong_guess_ix, 0);
        }
        Ok(_) => panic!("the first guess must come back wrong"),
    }

    // the same walls make the whole grid unsolvable
    let board = Board::from_text(
        b"..3456789\n\
          .459.....\n\
          678......\n",
    );
    assert!(board.solve().is_err());
}

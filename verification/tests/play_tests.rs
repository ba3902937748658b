use mines::{Board, OutOfBounds};

fn laid(width: i32, height: i32, mines: i32, draws: &[i32]) -> Board {
    match Board::from_draws(width, height, mines, draws) {
        Ok(board) => board,
        Err(e) => panic!("no board: {:?}", e),
    }
}

#[test]
fn toggle_flag_puts_a_flag_on_and_takes_it_off() {
    let mut board = laid(3, 2, 1, &[4]);
    let before = board.get_state().clone();
    assert_eq!(board.toggle_flag(2, 1), Ok(()));
    assert!(board.get_state()[1][2].has_flag());
    assert!(board.get_state()[1][2].is_covered());
    assert!(!board.get_state()[1][2].has_mine());
    assert_eq!(board.get_state()[1][2].get_neighbor_amount(), 1);
    for y in 0..2 {
        for x in 0..3 {
            if (x, y) != (2, 1) {
                assert_eq!(board.get_state()[y][x], before[y][x]);
            }
        }
    }
    assert_eq!(board.toggle_flag(2, 1), Ok(()));
    assert_eq!(board.get_state(), &before);
}

#[test]
fn toggle_flag_on_a_mine_keeps_the_mine() {
    let mut board = laid(3, 2, 1, &[4]);
    assert_eq!(board.toggle_flag(1, 1), Ok(()));
    assert!(board.get_state()[1][1].has_flag());
    assert!(board.get_state()[1][1].has_mine());
    assert_eq!(board.toggle_flag(1, 1), Ok(()));
    assert!(!board.get_state()[1][1].has_flag());
    assert!(board.get_state()[1][1].has_mine());
    assert!(board.get_state()[1][1].is_covered());
}

#[test]
fn toggle_flag_outside_the_board_is_refused() {
    let mut board = laid(3, 2, 1, &[4]);
    let before = board.get_state().clone();
    assert_eq!(board.toggle_flag(3, 1), Err(OutOfBounds { x: 3, y: 1 }));
    assert_eq!(board.toggle_flag(0, -1), Err(OutOfBounds { x: 0, y: -1 }));
    assert_eq!(board.get_state(), &before);
}

#[test]
fn flag_does_not_keep_a_cell_from_being_revealed() {
    let mut board = laid(3, 1, 0, &[]);
    assert_eq!(board.toggle_flag(1, 0), Ok(()));
    assert_eq!(board.uncover(0, 0), Ok(()));
    for x in 0..3 {
        assert!(!board.get_state()[0][x].is_covered());
    }
    assert!(board.get_state()[0][1].has_flag());
    let mut board = laid(3, 1, 1, &[1]);
    assert_eq!(board.toggle_flag(0, 0), Ok(()));
    assert_eq!(board.uncover(0, 0), Ok(()));
    assert!(!board.get_state()[0][0].is_covered());
    assert!(board.get_state()[0][0].has_flag());
}

#[test]
fn game_is_won_when_every_safe_cell_is_revealed() {
    let mut board = laid(3, 3, 1, &[8]);
    assert!(!board.is_won());
    assert_eq!(board.uncover(1, 1), Ok(()));
    assert!(!board.is_won());
    assert_eq!(board.uncover(0, 0), Ok(()));
    assert!(board.is_won());
    assert!(board.get_state()[2][2].is_covered());
}

#[test]
fn game_without_safe_cells_is_won_at_once() {
    let board = laid(2, 1, 2, &[0, 1]);
    assert!(board.is_won());
}

#[test]
fn game_with_one_covered_safe_cell_is_not_won() {
    let mut board = laid(4, 1, 2, &[1, 2]);
    assert_eq!(board.uncover(0, 0), Ok(()));
    assert!(!board.is_won());
    assert_eq!(board.uncover(3, 0), Ok(()));
    assert!(board.is_won());
}

#[test]
fn flags_do_not_win_a_game() {
    let mut board = laid(2, 1, 1, &[0]);
    assert_eq!(board.toggle_flag(0, 0), Ok(()));
    assert!(!board.is_won());
    assert_eq!(board.uncover(1, 0), Ok(()));
    assert!(board.is_won());
}

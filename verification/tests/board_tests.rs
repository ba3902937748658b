use mines::setup::check_config;
use mines::{Board, ConfigError, OutOfBounds};
use rand::rngs::StdRng;
use rand::{Rng, SeedableRng};

fn laid(width: i32, height: i32, mines: i32, draws: &[i32]) -> Board {
    match Board::from_draws(width, height, mines, draws) {
        Ok(board) => board,
        Err(e) => panic!("no board: {:?}", e),
    }
}

fn random(width: i32, height: i32, mines: i32) -> Board {
    match Board::new(width, height, mines) {
        Ok(board) => board,
        Err(e) => panic!("no board: {:?}", e),
    }
}

fn mines_on(board: &Board) -> Vec<(i32, i32)> {
    let mut found = Vec::new();
    for (y, row) in board.get_state().iter().enumerate() {
        for (x, cell) in row.iter().enumerate() {
            if cell.has_mine() {
                found.push((x as i32, y as i32));
            }
        }
    }
    found
}

fn covered_on(board: &Board) -> Vec<(i32, i32)> {
    let mut found = Vec::new();
    for (y, row) in board.get_state().iter().enumerate() {
        for (x, cell) in row.iter().enumerate() {
            if cell.is_covered() {
                found.push((x as i32, y as i32));
            }
        }
    }
    found
}

fn counted_around(board: &Board, x: i32, y: i32) -> i32 {
    let grid = board.get_state();
    let mut count = 0;
    for dy in -1..=1 {
        for dx in -1..=1 {
            let (nx, ny) = (x + dx, y + dy);
            if (dx, dy) != (0, 0)
                && 0 <= nx
                && nx < board.width()
                && 0 <= ny
                && ny < board.height()
                && grid[ny as usize][nx as usize].has_mine()
            {
                count += 1;
            }
        }
    }
    count
}

fn counts_are_right(board: &Board) -> bool {
    let grid = board.get_state();
    for y in 0..board.height() {
        for x in 0..board.width() {
            if grid[y as usize][x as usize].get_neighbor_amount() != counted_around(board, x, y) {
                return false;
            }
        }
    }
    true
}

#[test]
fn new_lays_exactly_the_mines_asked_for() {
    for &(width, height, mines) in
        &[(1, 1, 0), (1, 1, 1), (3, 3, 1), (8, 8, 10), (24, 24, 64), (5, 7, 17), (16, 2, 31)]
    {
        let board = random(width, height, mines);
        assert_eq!(mines_on(&board).len(), mines as usize);
        assert_eq!(board.width(), width);
        assert_eq!(board.height(), height);
        assert_eq!(board.get_state().len(), height as usize);
        for row in board.get_state() {
            assert_eq!(row.len(), width as usize);
        }
    }
}

#[test]
fn new_board_is_covered_and_unflagged() {
    let board = random(9, 6, 12);
    for row in board.get_state() {
        for cell in row {
            assert!(cell.is_covered());
            assert!(!cell.has_flag());
        }
    }
}

#[test]
fn new_counts_the_mines_around_each_cell() {
    for _ in 0..20 {
        let board = random(10, 7, 23);
        assert!(counts_are_right(&board));
    }
}

#[test]
fn new_fills_a_board_completely() {
    let board = random(6, 5, 30);
    assert_eq!(mines_on(&board).len(), 30);
    assert!(counts_are_right(&board));
    let grid = board.get_state();
    assert_eq!(grid[0][0].get_neighbor_amount(), 3);
    assert_eq!(grid[0][2].get_neighbor_amount(), 5);
    assert_eq!(grid[2][2].get_neighbor_amount(), 8);
}

#[test]
fn new_fills_all_but_one_cell() {
    for _ in 0..20 {
        let board = random(5, 5, 24);
        assert_eq!(mines_on(&board).len(), 24);
        assert!(counts_are_right(&board));
    }
}

#[test]
fn new_fills_a_large_board_to_the_last_cell() {
    let board = random(20, 20, 400);
    assert_eq!(mines_on(&board).len(), 400);
    assert!(counts_are_right(&board));
    let board = random(30, 30, 899);
    assert_eq!(mines_on(&board).len(), 899);
    assert!(counts_are_right(&board));
    assert_eq!(covered_on(&board).len(), 900);
}

#[test]
fn new_boards_differ() {
    // Two boards of 64 mines on 576 cells agree by chance once in more than
    // 10^80 tries.
    let a = random(24, 24, 64);
    let b = random(24, 24, 64);
    assert_ne!(mines_on(&a), mines_on(&b));
}

#[test]
fn new_on_one_cell_draws_inside_the_board() {
    let board = random(1, 1, 1);
    assert_eq!(mines_on(&board), vec![(0, 0)]);
    assert_eq!(board.get_state()[0][0].get_neighbor_amount(), 0);
}

#[test]
fn new_refuses_more_mines_than_cells() {
    assert!(matches!(Board::new(2, 2, 5), Err(ConfigError::TooManyMines)));
    assert!(matches!(Board::new(1, 1, 2), Err(ConfigError::TooManyMines)));
    assert!(Board::new(2, 2, 4).is_ok());
}

#[test]
fn new_refuses_a_negative_number_of_mines() {
    assert!(matches!(Board::new(2, 2, -1), Err(ConfigError::NegativeMines)));
}

#[test]
fn new_refuses_an_empty_or_oversized_board() {
    assert!(matches!(Board::new(0, 3, 0), Err(ConfigError::InvalidDimensions)));
    assert!(matches!(Board::new(3, 0, 0), Err(ConfigError::InvalidDimensions)));
    assert!(matches!(Board::new(-4, 3, 0), Err(ConfigError::InvalidDimensions)));
    assert!(matches!(Board::new(3, -4, 0), Err(ConfigError::InvalidDimensions)));
    assert!(matches!(Board::new(65536, 32768, 0), Err(ConfigError::InvalidDimensions)));
    assert!(matches!(Board::new(i32::MAX, i32::MAX, 0), Err(ConfigError::InvalidDimensions)));
}

#[test]
fn draws_name_cells_in_row_major_order() {
    let board = laid(3, 2, 1, &[5]);
    assert_eq!(mines_on(&board), vec![(2, 1)]);
    let board = laid(3, 2, 1, &[3]);
    assert_eq!(mines_on(&board), vec![(0, 1)]);
    let board = laid(4, 3, 2, &[7, 8]);
    assert_eq!(mines_on(&board), vec![(3, 1), (0, 2)]);
}

#[test]
fn draws_count_the_mine_on_the_cells_around_it() {
    let board = laid(3, 3, 1, &[8]);
    let grid = board.get_state();
    let expected = [[0, 0, 0], [0, 1, 1], [0, 1, 0]];
    for y in 0..3 {
        for x in 0..3 {
            assert_eq!(grid[y][x].get_neighbor_amount(), expected[y][x]);
        }
    }
    assert!(grid[2][2].has_mine());
    assert!(covered_on(&board).len() == 9);
}

#[test]
fn draws_in_the_middle_reach_all_eight_cells() {
    let board = laid(3, 3, 1, &[4]);
    let grid = board.get_state();
    for y in 0..3 {
        for x in 0..3 {
            let expected = if (x, y) == (1, 1) { 0 } else { 1 };
            assert_eq!(grid[y][x].get_neighbor_amount(), expected);
        }
    }
}

#[test]
fn mined_cell_counts_the_mines_around_it() {
    let board = laid(3, 1, 3, &[0, 1, 2]);
    let grid = board.get_state();
    assert_eq!(grid[0][0].get_neighbor_amount(), 1);
    assert_eq!(grid[0][1].get_neighbor_amount(), 2);
    assert_eq!(grid[0][2].get_neighbor_amount(), 1);
}

#[test]
fn repeated_draw_is_passed_over() {
    let board = laid(3, 3, 2, &[4, 4, 4, 0]);
    assert_eq!(mines_on(&board), vec![(0, 0), (1, 1)]);
    assert!(counts_are_right(&board));
}

#[test]
fn draw_outside_the_board_is_passed_over() {
    let board = laid(3, 3, 2, &[9, -1, 4, 100, 0]);
    assert_eq!(mines_on(&board), vec![(0, 0), (1, 1)]);
}

#[test]
fn draws_after_the_last_mine_are_not_used() {
    let board = laid(3, 3, 1, &[4, 0, 1, 2]);
    assert_eq!(mines_on(&board), vec![(1, 1)]);
    let board = laid(3, 3, 0, &[4, 0, 1, 2]);
    assert_eq!(mines_on(&board), vec![]);
}

#[test]
fn too_few_draws_give_no_board() {
    assert!(matches!(Board::from_draws(3, 3, 2, &[4]), Err(ConfigError::DrawsExhausted)));
    assert!(matches!(Board::from_draws(3, 3, 2, &[4, 4, 9]), Err(ConfigError::DrawsExhausted)));
    assert!(matches!(Board::from_draws(3, 3, 1, &[]), Err(ConfigError::DrawsExhausted)));
    assert!(Board::from_draws(3, 3, 0, &[]).is_ok());
}

#[test]
fn from_draws_tests_the_configuration_first() {
    assert!(matches!(Board::from_draws(2, 2, 5, &[0, 1, 2, 3]), Err(ConfigError::TooManyMines)));
    assert!(matches!(Board::from_draws(2, 2, -1, &[]), Err(ConfigError::NegativeMines)));
    assert!(matches!(Board::from_draws(0, 2, 0, &[]), Err(ConfigError::InvalidDimensions)));
    assert!(matches!(Board::from_draws(2, -2, 5, &[]), Err(ConfigError::InvalidDimensions)));
}

#[test]
fn same_draws_give_the_same_board() {
    let mut first = StdRng::seed_from_u64(2024);
    let mut second = StdRng::seed_from_u64(2024);
    let draws_a: Vec<i32> = (0..400).map(|_| first.gen_range(0..100)).collect();
    let draws_b: Vec<i32> = (0..400).map(|_| second.gen_range(0..100)).collect();
    let a = laid(10, 10, 30, &draws_a);
    let b = laid(10, 10, 30, &draws_b);
    assert_eq!(a.get_state(), b.get_state());
    assert_eq!(mines_on(&a).len(), 30);
    assert!(counts_are_right(&a));
}

#[test]
fn cascade_reveals_all_but_the_mine() {
    let mut board = laid(3, 3, 1, &[8]);
    assert_eq!(board.uncover(0, 0), Ok(()));
    assert_eq!(covered_on(&board), vec![(2, 2)]);
    assert!(board.get_state()[2][2].has_mine());
}

#[test]
fn cascade_stops_at_a_numbered_cell() {
    let mut board = laid(5, 1, 1, &[2]);
    assert_eq!(board.uncover(0, 0), Ok(()));
    assert_eq!(covered_on(&board), vec![(2, 0), (3, 0), (4, 0)]);
}

#[test]
fn numbered_cell_reveals_itself_alone() {
    let mut board = laid(3, 3, 1, &[8]);
    assert_eq!(board.uncover(1, 1), Ok(()));
    assert_eq!(covered_on(&board).len(), 8);
    assert!(!board.get_state()[1][1].is_covered());
}

#[test]
fn cascade_does_not_cross_a_corner() {
    // Mines on the anti-diagonal part the board into two corners that touch
    // only diagonally.
    let mut board = laid(4, 4, 4, &[3, 6, 9, 12]);
    assert_eq!(board.uncover(0, 0), Ok(()));
    let covered = covered_on(&board);
    assert!(!covered.contains(&(0, 0)));
    assert!(!covered.contains(&(1, 0)));
    assert!(!covered.contains(&(0, 1)));
    assert!(covered.contains(&(3, 3)));
    assert!(covered.contains(&(2, 3)));
    assert!(covered.contains(&(3, 2)));
    assert!(covered.contains(&(1, 1)));
    assert_eq!(covered.len(), 13);
}

#[test]
fn cascade_goes_round_a_wall() {
    // A mine in the middle of a 5x5 board: the spread reaches every cell
    // but the mine.
    let mut board = laid(5, 5, 1, &[12]);
    assert_eq!(board.uncover(4, 4), Ok(()));
    assert_eq!(covered_on(&board), vec![(2, 2)]);
}

#[test]
fn cascade_passes_cells_that_were_revealed_before() {
    let mut board = laid(5, 1, 0, &[]);
    assert_eq!(board.uncover(2, 0), Ok(()));
    assert_eq!(covered_on(&board), vec![]);
    let mut board = laid(7, 1, 1, &[3]);
    assert_eq!(board.uncover(2, 0), Ok(()));
    assert_eq!(covered_on(&board).len(), 6);
    assert_eq!(board.uncover(0, 0), Ok(()));
    assert_eq!(covered_on(&board), vec![(3, 0), (4, 0), (5, 0), (6, 0)]);
}

#[test]
fn uncover_of_a_revealed_empty_cell_spreads_again() {
    let mut board = laid(3, 1, 0, &[]);
    assert_eq!(board.uncover(1, 0), Ok(()));
    assert_eq!(covered_on(&board), vec![]);
    assert_eq!(board.uncover(1, 0), Ok(()));
    assert_eq!(covered_on(&board), vec![]);
}

#[test]
fn uncover_twice_is_uncover_once_on_the_board() {
    for &(x, y) in &[(0, 0), (1, 1), (4, 4), (2, 3), (5, 0)] {
        let draws = [7, 14, 21, 28, 35, 3];
        let mut once = laid(6, 6, 6, &draws);
        let mut twice = laid(6, 6, 6, &draws);
        assert_eq!(once.uncover(x, y), Ok(()));
        assert_eq!(twice.uncover(x, y), Ok(()));
        assert_eq!(twice.uncover(x, y), Ok(()));
        assert_eq!(once.get_state(), twice.get_state());
    }
}

#[test]
fn uncover_of_a_mine_reveals_every_cell() {
    let mut board = laid(4, 3, 3, &[0, 5, 11]);
    assert_eq!(board.uncover(1, 1), Ok(()));
    assert_eq!(covered_on(&board), vec![]);
    assert_eq!(mines_on(&board), vec![(0, 0), (1, 1), (3, 2)]);
    assert!(counts_are_right(&board));
}

#[test]
fn uncover_of_a_mine_on_a_random_board_reveals_every_cell() {
    let mut board = random(12, 9, 20);
    let (x, y) = mines_on(&board)[0];
    assert_eq!(board.uncover(x, y), Ok(()));
    assert_eq!(covered_on(&board), vec![]);
    assert_eq!(mines_on(&board).len(), 20);
}

#[test]
fn uncover_keeps_mines_and_counts() {
    let mut board = random(12, 9, 20);
    let mines = mines_on(&board);
    let safe = (0..12 * 9).map(|s| (s % 12, s / 12)).find(|p| !mines.contains(p));
    let (x, y) = safe.unwrap();
    assert_eq!(board.uncover(x, y), Ok(()));
    assert_eq!(mines_on(&board), mines);
    assert!(counts_are_right(&board));
    assert!(!board.get_state()[y as usize][x as usize].is_covered());
    for (mx, my) in mines {
        assert!(board.get_state()[my as usize][mx as usize].is_covered());
    }
}

#[test]
fn uncover_outside_the_board_is_refused() {
    let mut board = laid(3, 2, 1, &[0]);
    let before = board.get_state().clone();
    assert_eq!(board.uncover(-1, 0), Err(OutOfBounds { x: -1, y: 0 }));
    assert_eq!(board.uncover(0, -1), Err(OutOfBounds { x: 0, y: -1 }));
    assert_eq!(board.uncover(3, 0), Err(OutOfBounds { x: 3, y: 0 }));
    assert_eq!(board.uncover(0, 2), Err(OutOfBounds { x: 0, y: 2 }));
    assert_eq!(board.uncover(i32::MAX, i32::MIN), Err(OutOfBounds { x: i32::MAX, y: i32::MIN }));
    assert_eq!(board.get_state(), &before);
    assert_eq!(board.uncover(2, 1), Ok(()));
}

#[test]
fn corner_has_three_cells_around_it() {
    let board = laid(4, 3, 0, &[]);
    assert_eq!(board.get_all_neighbors(0, 0), Ok(vec![(1, 0), (0, 1), (1, 1)]));
    assert_eq!(board.get_all_neighbors(3, 0), Ok(vec![(2, 0), (2, 1), (3, 1)]));
    assert_eq!(board.get_all_neighbors(0, 2), Ok(vec![(0, 1), (1, 1), (1, 2)]));
    assert_eq!(board.get_all_neighbors(3, 2), Ok(vec![(2, 1), (3, 1), (2, 2)]));
}

#[test]
fn inner_cell_has_eight_cells_around_it() {
    let board = laid(4, 3, 0, &[]);
    assert_eq!(
        board.get_all_neighbors(1, 1),
        Ok(vec![(0, 0), (1, 0), (2, 0), (0, 1), (2, 1), (0, 2), (1, 2), (2, 2)])
    );
}

#[test]
fn edge_cell_has_five_cells_around_it() {
    let board = laid(4, 3, 0, &[]);
    assert_eq!(board.get_all_neighbors(1, 0), Ok(vec![(0, 0), (2, 0), (0, 1), (1, 1), (2, 1)]));
}

#[test]
fn narrow_boards_have_fewer_cells_around_a_corner() {
    let board = laid(1, 1, 0, &[]);
    assert_eq!(board.get_all_neighbors(0, 0), Ok(vec![]));
    assert_eq!(board.get_neighbors(0, 0), Ok(vec![]));
    let board = laid(1, 4, 0, &[]);
    assert_eq!(board.get_all_neighbors(0, 0), Ok(vec![(0, 1)]));
    let board = laid(4, 1, 0, &[]);
    assert_eq!(board.get_all_neighbors(0, 0), Ok(vec![(1, 0)]));
}

#[test]
fn neighbors_outside_the_board_are_refused() {
    let board = laid(4, 3, 0, &[]);
    assert_eq!(board.get_all_neighbors(4, 0), Err(OutOfBounds { x: 4, y: 0 }));
    assert_eq!(board.get_all_neighbors(0, -1), Err(OutOfBounds { x: 0, y: -1 }));
    assert_eq!(board.get_neighbors(-1, 0), Err(OutOfBounds { x: -1, y: 0 }));
    assert_eq!(board.get_neighbors(0, 3), Err(OutOfBounds { x: 0, y: 3 }));
}

#[test]
fn covered_neighbors_come_left_right_above_below() {
    let board = laid(3, 3, 1, &[8]);
    assert_eq!(board.get_neighbors(1, 1), Ok(vec![(0, 1), (2, 1), (1, 0), (1, 2)]));
    assert_eq!(board.get_neighbors(0, 0), Ok(vec![(1, 0), (0, 1)]));
    assert_eq!(board.get_neighbors(2, 2), Ok(vec![(1, 2), (2, 1)]));
}

#[test]
fn covered_neighbors_leave_out_revealed_cells() {
    let mut board = laid(3, 3, 2, &[8, 0]);
    assert_eq!(board.uncover(1, 0), Ok(()));
    assert_eq!(board.uncover(1, 2), Ok(()));
    assert_eq!(board.get_neighbors(1, 1), Ok(vec![(0, 1), (2, 1)]));
    for x in 0..3 {
        for y in 0..3 {
            for (nx, ny) in board.get_neighbors(x, y).unwrap() {
                assert!(0 <= nx && nx < 3 && 0 <= ny && ny < 3);
                assert!(board.get_state()[ny as usize][nx as usize].is_covered());
            }
        }
    }
}

#[test]
fn render_shows_a_covered_board() {
    let board = laid(3, 2, 1, &[0]);
    assert_eq!(board.render(), " 01234567\n0###\n1###\n");
}

#[test]
fn render_shows_numbers_blanks_and_covered_cells() {
    let mut board = laid(3, 3, 1, &[8]);
    assert_eq!(board.uncover(0, 0), Ok(()));
    assert_eq!(board.render(), " 01234567\n0   \n1 11\n2 1#\n");
}

#[test]
fn render_shows_mines_after_a_loss() {
    let mut board = laid(3, 2, 2, &[0, 5]);
    assert_eq!(board.uncover(0, 0), Ok(()));
    assert_eq!(board.render(), " 01234567\n0O21\n112O\n");
    let mut board = laid(5, 1, 1, &[0]);
    assert_eq!(board.uncover(0, 0), Ok(()));
    assert_eq!(board.render(), " 01234567\n0O1   \n");
}

#[test]
fn render_shows_the_count_of_a_revealed_mine_with_mines_around() {
    let mut board = laid(2, 1, 2, &[0, 1]);
    assert_eq!(board.uncover(0, 0), Ok(()));
    assert_eq!(board.render(), " 01234567\n011\n");
}

#[test]
fn render_numbers_rows_in_decimal() {
    let board = laid(1, 12, 0, &[]);
    assert_eq!(
        board.render(),
        " 01234567\n0#\n1#\n2#\n3#\n4#\n5#\n6#\n7#\n8#\n9#\n10#\n11#\n"
    );
}

#[test]
fn render_shows_eight_mines_around_a_cell() {
    let mut board = laid(3, 3, 8, &[0, 1, 2, 3, 5, 6, 7, 8]);
    assert_eq!(board.uncover(1, 1), Ok(()));
    assert_eq!(board.render(), " 01234567\n0###\n1#8#\n2###\n");
}

#[test]
fn check_config_names_the_fault() {
    assert_eq!(check_config(24, 24, 64), None);
    assert_eq!(check_config(1, 1, 0), None);
    assert_eq!(check_config(3, 3, 9), None);
    assert_eq!(check_config(3, 3, 10), Some(ConfigError::TooManyMines));
    assert_eq!(check_config(3, 3, -1), Some(ConfigError::NegativeMines));
    assert_eq!(check_config(0, 3, 0), Some(ConfigError::InvalidDimensions));
    assert_eq!(check_config(0, 3, 1), Some(ConfigError::InvalidDimensions));
    assert_eq!(check_config(46341, 46341, 0), Some(ConfigError::InvalidDimensions));
    assert_eq!(check_config(46340, 46340, 0), None);
    assert_eq!(check_config(i32::MAX, 1, i32::MAX), None);
}

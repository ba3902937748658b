use mines::Cell;

#[test]
fn new_cell_is_covered_and_empty() {
    let cell = Cell::new();
    assert!(cell.is_covered());
    assert!(!cell.has_mine());
    assert!(!cell.has_flag());
    assert_eq!(cell.get_neighbor_amount(), 0);
}

#[test]
fn uncover_clears_only_the_cover() {
    let mut cell = Cell::new();
    cell.place_mine();
    cell.place_flag();
    cell.uncover();
    assert!(!cell.is_covered());
    assert!(cell.has_mine());
    assert!(cell.has_flag());
}

#[test]
fn uncover_twice_is_uncover_once() {
    let mut once = Cell::new();
    once.uncover();
    let mut twice = Cell::new();
    twice.uncover();
    twice.uncover();
    assert_eq!(once, twice);
    assert!(!twice.is_covered());
}

#[test]
fn cover_hides_a_revealed_cell() {
    let mut cell = Cell::new();
    cell.uncover();
    cell.cover();
    assert!(cell.is_covered());
    assert_eq!(cell, Cell::new());
}

#[test]
fn mine_is_placed_and_removed() {
    let mut cell = Cell::new();
    cell.place_mine();
    assert!(cell.has_mine());
    assert!(cell.is_covered());
    assert!(!cell.has_flag());
    cell.remove_mine();
    assert!(!cell.has_mine());
    assert!(cell.is_covered());
    assert_eq!(cell, Cell::new());
}

#[test]
fn flag_is_placed_and_removed() {
    let mut cell = Cell::new();
    cell.place_flag();
    assert!(cell.has_flag());
    assert!(cell.is_covered());
    assert!(!cell.has_mine());
    cell.remove_flag();
    assert!(!cell.has_flag());
    assert_eq!(cell, Cell::new());
}

#[test]
fn remove_flag_keeps_mine_and_cover() {
    let mut cell = Cell::new();
    cell.place_mine();
    cell.place_flag();
    cell.remove_flag();
    assert!(!cell.has_flag());
    assert!(cell.has_mine());
    assert!(cell.is_covered());
}

#[test]
fn remove_flag_without_flag_changes_nothing() {
    let mut cell = Cell::new();
    cell.place_mine();
    let before = cell;
    cell.remove_flag();
    assert_eq!(cell, before);
}

#[test]
fn increment_counts_by_one() {
    let mut cell = Cell::new();
    for expected in 1..=8 {
        cell.increment();
        assert_eq!(cell.get_neighbor_amount(), expected);
    }
    assert!(cell.is_covered());
    assert!(!cell.has_mine());
    assert!(!cell.has_flag());
}

#[test]
fn mined_cell_still_counts_neighbors() {
    let mut cell = Cell::new();
    cell.place_mine();
    cell.increment();
    cell.increment();
    assert!(cell.has_mine());
    assert_eq!(cell.get_neighbor_amount(), 2);
}

#[test]
fn count_survives_uncover() {
    let mut cell = Cell::new();
    cell.increment();
    cell.increment();
    cell.increment();
    cell.uncover();
    assert_eq!(cell.get_neighbor_amount(), 3);
}

use crossgrid::{number_cells, word_slots, Direction, Grid, Slot};

#[test]
fn numbers_a_simple_grid() {
    // 1 2
    // 3 .
    let grid = Grid::parse("..\n..").unwrap();
    let numbers = number_cells(&grid);
    assert_eq!(numbers, vec![(0, 0, 1), (0, 1, 2), (1, 0, 3)]);
}

#[test]
fn single_cell_runs_are_not_slots() {
    let grid = Grid::parse("#.#").unwrap();
    assert!(word_slots(&grid).is_empty());
}

#[test]
fn finds_across_and_down_slots() {
    let grid = Grid::parse("...\n.#.\n...").unwrap();
    let slots = word_slots(&grid);
    let across = slots.iter().filter(|s| s.direction == Direction::Across).count();
    let down = slots.iter().filter(|s| s.direction == Direction::Down).count();
    assert_eq!(across, 2);
    assert_eq!(down, 2);
}

#[test]
fn slot_length_matches_run_of_white_cells() {
    let grid = Grid::parse("....").unwrap();
    let slots = word_slots(&grid);
    assert_eq!(slots.len(), 1);
    assert_eq!(slots[0].length, 4);
}

#[test]
fn readme_example_counts_two_across_words() {
    let grid = Grid::parse("...\n.#.\n...").expect("valid grid");
    assert_eq!(grid.width(), 3);
    assert!(grid.has_180_symmetry());
    let across_words = word_slots(&grid)
        .into_iter()
        .filter(|slot| slot.direction == Direction::Across)
        .count();
    assert_eq!(across_words, 2);
}

#[test]
fn slots_carry_numbers_of_their_start_cells() {
    // 1 . 2
    // . # .
    // 3 . .
    let grid = Grid::parse("...\n.#.\n...").unwrap();
    assert_eq!(number_cells(&grid), vec![(0, 0, 1), (0, 2, 2), (2, 0, 3)]);
    let slots = word_slots(&grid);
    assert_eq!(
        slots,
        vec![
            Slot { number: 1, direction: Direction::Across, row: 0, col: 0, length: 3 },
            Slot { number: 3, direction: Direction::Across, row: 2, col: 0, length: 3 },
            Slot { number: 1, direction: Direction::Down, row: 0, col: 0, length: 3 },
            Slot { number: 2, direction: Direction::Down, row: 0, col: 2, length: 3 },
        ]
    );
}

#[test]
fn down_slots_come_column_by_column() {
    // 1 # 2
    // . 3 .
    let grid = Grid::parse(".#.\n...").unwrap();
    assert_eq!(number_cells(&grid), vec![(0, 0, 1), (0, 2, 2), (1, 0, 3)]);
    let slots = word_slots(&grid);
    assert_eq!(
        slots,
        vec![
            Slot { number: 3, direction: Direction::Across, row: 1, col: 0, length: 3 },
            Slot { number: 1, direction: Direction::Down, row: 0, col: 0, length: 2 },
            Slot { number: 2, direction: Direction::Down, row: 0, col: 2, length: 2 },
        ]
    );
}

#[test]
fn all_black_grid_has_no_numbers_or_slots() {
    let grid = Grid::parse("##\n##").unwrap();
    assert!(number_cells(&grid).is_empty());
    assert!(word_slots(&grid).is_empty());
}

#[test]
fn slot_stops_at_black_square() {
    let grid = Grid::parse("..#...").unwrap();
    let slots = word_slots(&grid);
    assert_eq!(
        slots,
        vec![
            Slot { number: 1, direction: Direction::Across, row: 0, col: 0, length: 2 },
            Slot { number: 2, direction: Direction::Across, row: 0, col: 3, length: 3 },
        ]
    );
}

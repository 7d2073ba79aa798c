use crossgrid::{Cell, Grid, GridError};

#[test]
fn parses_simple_grid() {
    let grid = Grid::parse("..#\n...\n#..").unwrap();
    assert_eq!(grid.width(), 3);
    assert_eq!(grid.height(), 3);
    assert!(grid.is_black(0, 2));
    assert!(!grid.is_black(1, 1));
}

#[test]
fn rejects_ragged_rows() {
    let err = Grid::parse("..\n...").unwrap_err();
    assert_eq!(err, GridError::RaggedRows { row: 1, expected: 2, found: 3 });
}

#[test]
fn rejects_empty_input() {
    assert_eq!(Grid::parse("").unwrap_err(), GridError::Empty);
}

#[test]
fn detects_180_symmetry() {
    let symmetric = Grid::parse("#..\n...\n..#").unwrap();
    assert!(symmetric.has_180_symmetry());

    let not_symmetric = Grid::parse("#..\n...\n...").unwrap();
    assert!(!not_symmetric.has_180_symmetry());
}

#[test]
fn black_count_counts_black_squares() {
    let grid = Grid::parse("#.\n..").unwrap();
    assert_eq!(grid.black_count(), 1);
    assert_eq!(grid.width() * grid.height(), 4);
}

#[test]
fn letters_fill_white_cells() {
    let grid = Grid::parse("#CAT#\n..O..").unwrap();
    assert_eq!(grid.get(0, 0), Some(Cell::Black));
    assert_eq!(grid.get(0, 1), Some(Cell::White(Some('C'))));
    assert_eq!(grid.get(1, 2), Some(Cell::White(Some('O'))));
    assert_eq!(grid.get(1, 0), Some(Cell::White(None)));
    assert_eq!(grid.filled_count(), 4);
}

#[test]
fn lowercase_letters_are_kept_as_written() {
    let grid = Grid::parse("ab").unwrap();
    assert_eq!(grid.get(0, 0), Some(Cell::White(Some('a'))));
    assert_eq!(grid.get(0, 1), Some(Cell::White(Some('b'))));
}

#[test]
fn any_other_character_is_an_empty_white_square() {
    let grid = Grid::parse(".-?1 ").unwrap();
    assert_eq!(grid.width(), 5);
    for col in 0..5 {
        assert_eq!(grid.get(0, col), Some(Cell::White(None)));
    }
    assert_eq!(grid.filled_count(), 0);
}

#[test]
fn get_outside_the_grid_is_none() {
    let grid = Grid::parse("..\n..").unwrap();
    assert_eq!(grid.get(2, 0), None);
    assert_eq!(grid.get(0, 2), None);
    assert!(!grid.is_black(5, 5));
}

#[test]
fn blank_lines_and_crlf_endings_are_skipped() {
    let grid = Grid::parse("\n#.\r\n\r\n..\n\n").unwrap();
    assert_eq!(grid.height(), 2);
    assert_eq!(grid.width(), 2);
    assert!(grid.is_black(0, 0));
    assert!(!grid.is_black(1, 1));
}

#[test]
fn trailing_carriage_return_without_newline_is_a_cell() {
    let grid = Grid::parse("..\n.\r").unwrap();
    assert_eq!(grid.width(), 2);
    assert_eq!(grid.height(), 2);
}

#[test]
fn only_blank_lines_is_empty() {
    assert_eq!(Grid::parse("\n\r\n\n").unwrap_err(), GridError::Empty);
}

#[test]
fn from_rows_builds_and_rejects() {
    let w = Cell::White(None);
    let b = Cell::Black;
    let grid = Grid::from_rows(&[vec![w, b], vec![b, w]]).unwrap();
    assert!(grid.is_black(0, 1));
    assert!(grid.is_black(1, 0));
    assert!(grid.has_180_symmetry());
    assert_eq!(Grid::from_rows(&[]).unwrap_err(), GridError::Empty);
    assert_eq!(
        Grid::from_rows(&[vec![w, w], vec![w, w], vec![w]]).unwrap_err(),
        GridError::RaggedRows { row: 2, expected: 2, found: 1 }
    );
}

#[test]
fn from_rows_allows_zero_width_rows() {
    let grid = Grid::from_rows(&[vec![], vec![]]).unwrap();
    assert_eq!(grid.width(), 0);
    assert_eq!(grid.height(), 2);
    assert!(grid.has_180_symmetry());
    assert_eq!(grid.black_count(), 0);
}

#[test]
fn clone_is_equal() {
    let grid = Grid::parse("#A.\n...").unwrap();
    assert_eq!(grid.clone(), grid);
}

#[test]
fn parse_reads_only_nonblank_lines() {
    assert_eq!(Grid::parse("..\n..\n\n"), Grid::parse("\n..\n\n.."));
    assert_eq!(Grid::parse("\n\n\n").unwrap_err(), GridError::Empty);
}

#[test]
fn rendering_and_parsing_round_trips() {
    let w = Cell::White(None);
    let b = Cell::Black;
    let grid = Grid::from_rows(&[
        vec![b, Cell::White(Some('C')), Cell::White(Some('a'))],
        vec![w, b, Cell::White(Some('T'))],
    ])
    .unwrap();
    let mut text = String::new();
    for row in 0..grid.height() {
        if row > 0 {
            text.push('\n');
        }
        for col in 0..grid.width() {
            text.push(match grid.get(row, col).unwrap() {
                Cell::Black => '#',
                Cell::White(Some(c)) => c,
                Cell::White(None) => '.',
            });
        }
    }
    assert_eq!(text, "#Ca\n.#T");
    assert_eq!(Grid::parse(&text), Ok(grid));
}

#[test]
fn grid_error_messages() {
    assert_eq!(GridError::Empty.message(), "grid has no rows");
    assert_eq!(
        GridError::RaggedRows { row: 1, expected: 2, found: 13 }.message(),
        "row 1 has 13 cells, expected 2"
    );
    assert_eq!(
        GridError::RaggedRows { row: 0, expected: 100, found: 9 }.message(),
        "row 0 has 9 cells, expected 100"
    );
}

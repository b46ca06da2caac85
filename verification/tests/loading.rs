use wfc_sudoku::cell::{Cell, CellValue};
use wfc_sudoku::sudoku::Sudoku;

fn blank_text() -> String {
    let mut text = String::new();
    for _ in 0..9 {
        text.push_str(".........\n");
    }
    text
}

fn puzzle_text() -> &'static str {
    "53..7....\n\
     6..195...\n\
     .98....6.\n\
     8...6...3\n\
     4..8.3..1\n\
     7...2...6\n\
     .6....28.\n\
     ...419..5\n\
     ....8..79\n"
}

fn is_blank(board: &Sudoku, x: usize, y: usize) -> bool {
    let cell = board.get_cell(x, y);
    !cell.is_static() && !cell.value().is_certain() && cell.value().as_vec().is_empty()
}

fn is_given(board: &Sudoku, x: usize, y: usize, digit: u32) -> bool {
    let cell = board.get_cell(x, y);
    cell.is_static() && cell.value().is_certain() && cell.value().as_vec() == vec![digit]
}

#[test]
fn board_dimensions_are_nine_and_three() {
    assert_eq!(Sudoku::BOARD_DIM, 9);
    assert_eq!(Sudoku::QUADRANT_DIM, 3);
}

#[test]
fn blank_input_loads_eighty_one_open_cells() {
    let board = Sudoku::from_text(&blank_text());
    for y in 0..9 {
        for x in 0..9 {
            assert!(is_blank(&board, x, y), "cell ({}, {})", x, y);
        }
    }
}

#[test]
fn empty_text_loads_a_blank_board() {
    let board = Sudoku::from_text("");
    for y in 0..9 {
        for x in 0..9 {
            assert!(is_blank(&board, x, y), "cell ({}, {})", x, y);
        }
    }
}

#[test]
fn digits_become_given_cells() {
    let board = Sudoku::from_text(puzzle_text());
    assert!(is_given(&board, 0, 0, 5));
    assert!(is_given(&board, 1, 0, 3));
    assert!(is_blank(&board, 2, 0));
    assert!(is_given(&board, 4, 0, 7));
    assert!(is_given(&board, 0, 1, 6));
    assert!(is_given(&board, 8, 8, 9));
    assert!(is_given(&board, 7, 8, 7));
    assert!(is_blank(&board, 0, 8));
    let mut givens = 0;
    for y in 0..9 {
        for x in 0..9 {
            if board.get_cell(x, y).is_static() {
                givens += 1;
            }
        }
    }
    assert_eq!(givens, 30);
}

#[test]
fn column_is_the_first_coordinate_and_row_the_second() {
    let board = Sudoku::from_text("12\n3\n");
    assert!(is_given(&board, 0, 0, 1));
    assert!(is_given(&board, 1, 0, 2));
    assert!(is_given(&board, 0, 1, 3));
    assert!(is_blank(&board, 1, 1));
    assert!(is_blank(&board, 2, 0));
    assert!(is_blank(&board, 0, 2));
}

#[test]
fn zero_is_accepted_as_a_given_digit() {
    let board = Sudoku::from_text("0........\n");
    assert!(is_given(&board, 0, 0, 0));
    assert!(is_blank(&board, 1, 0));
}

#[test]
fn any_other_character_is_an_open_cell() {
    let board = Sudoku::from_text(" x-4+_?*5\n");
    for x in [0, 1, 2, 4, 5, 6, 7] {
        assert!(is_blank(&board, x, 0), "column {}", x);
    }
    assert!(is_given(&board, 3, 0, 4));
    assert!(is_given(&board, 8, 0, 5));
}

#[test]
fn characters_past_the_ninth_column_are_ignored() {
    let board = Sudoku::from_text("1234567891234\n.........77\n");
    for x in 0..9 {
        assert!(is_given(&board, x, 0, x as u32 + 1));
        assert!(is_blank(&board, x, 1));
    }
}

#[test]
fn lines_past_the_ninth_are_ignored() {
    let mut text = blank_text();
    text.push_str("123456789\n");
    text.push_str("987654321\n");
    let board = Sudoku::from_text(&text);
    for y in 0..9 {
        for x in 0..9 {
            assert!(is_blank(&board, x, y), "cell ({}, {})", x, y);
        }
    }
}

#[test]
fn missing_rows_stay_open() {
    let board = Sudoku::from_text("123456789");
    for x in 0..9 {
        assert!(is_given(&board, x, 0, x as u32 + 1));
    }
    for y in 1..9 {
        for x in 0..9 {
            assert!(is_blank(&board, x, y), "cell ({}, {})", x, y);
        }
    }
}

#[test]
fn carriage_return_before_line_feed_shifts_nothing() {
    let board = Sudoku::from_text("1.3\r\n.5\r\n");
    assert!(is_given(&board, 0, 0, 1));
    assert!(is_blank(&board, 1, 0));
    assert!(is_given(&board, 2, 0, 3));
    assert!(is_blank(&board, 3, 0));
    assert!(is_blank(&board, 0, 1));
    assert!(is_given(&board, 1, 1, 5));
    assert!(is_blank(&board, 2, 1));
}

#[test]
fn empty_lines_are_empty_rows() {
    let board = Sudoku::from_text("\n\n7\n");
    assert!(is_blank(&board, 0, 0));
    assert!(is_blank(&board, 0, 1));
    assert!(is_given(&board, 0, 2, 7));
}

#[test]
fn a_character_of_several_bytes_takes_one_column() {
    let board = Sudoku::from_text("\u{e9}1\u{4e2d}2\n");
    assert!(is_blank(&board, 0, 0));
    assert!(is_given(&board, 1, 0, 1));
    assert!(is_blank(&board, 2, 0));
    assert!(is_given(&board, 3, 0, 2));
}

#[test]
fn digits_of_other_scripts_are_open_cells() {
    let board = Sudoku::from_text("\u{663}\u{ff15}4\n");
    assert!(is_blank(&board, 0, 0));
    assert!(is_blank(&board, 1, 0));
    assert!(is_given(&board, 2, 0, 4));
}

#[test]
fn contradicting_givens_are_loaded_as_they_are() {
    let board = Sudoku::from_text("55.......\n5........\n");
    assert!(is_given(&board, 0, 0, 5));
    assert!(is_given(&board, 1, 0, 5));
    assert!(is_given(&board, 0, 1, 5));
}

#[test]
fn certain_value_is_certain_and_holds_one_digit() {
    let value = CellValue::Certain(7);
    assert!(value.is_certain());
    assert_eq!(value.as_vec(), vec![7]);
}

#[test]
fn uncertain_value_keeps_its_candidates_in_order() {
    let value = CellValue::Uncertain(vec![9, 2, 5]);
    assert!(!value.is_certain());
    assert_eq!(value.as_vec(), vec![9, 2, 5]);
    let empty = CellValue::Uncertain(vec![]);
    assert!(!empty.is_certain());
    assert_eq!(empty.as_vec(), Vec::<u32>::new());
}

#[test]
fn cell_returns_what_it_was_made_of() {
    let given = Cell::new(CellValue::Certain(4), true);
    assert!(given.is_static());
    assert!(given.value().is_certain());
    assert_eq!(given.value().as_vec(), vec![4]);
    let open = Cell::new(CellValue::Uncertain(vec![1, 3]), false);
    assert!(!open.is_static());
    assert!(!open.value().is_certain());
    assert_eq!(open.value().as_vec(), vec![1, 3]);
}

#[test]
fn cloned_values_are_equal_and_independent() {
    let value = CellValue::Uncertain(vec![2, 4, 6]);
    let copy = value.clone();
    assert_eq!(copy.as_vec(), vec![2, 4, 6]);
    let cell = Cell::new(value, false);
    let cell_copy = cell.clone();
    assert_eq!(cell_copy.value().as_vec(), vec![2, 4, 6]);
    assert!(!cell_copy.is_static());

    let mut board = Sudoku::from_text(puzzle_text());
    let snapshot = board.clone();
    board.update_possible_values();
    assert_eq!(board.get_cell(2, 0).value().as_vec(), vec![1, 2, 4]);
    assert!(is_blank(&snapshot, 2, 0));
    assert!(is_given(&snapshot, 0, 0, 5));
}

#[test]
fn quadrant_coords_lists_the_block_row_by_row() {
    assert_eq!(
        Sudoku::quadrant_coords(0, 0),
        vec![(0, 0), (1, 0), (2, 0), (0, 1), (1, 1), (2, 1), (0, 2), (1, 2), (2, 2)]
    );
    assert_eq!(
        Sudoku::quadrant_coords(1, 2),
        vec![(3, 6), (4, 6), (5, 6), (3, 7), (4, 7), (5, 7), (3, 8), (4, 8), (5, 8)]
    );
    assert_eq!(
        Sudoku::quadrant_coords(2, 1),
        vec![(6, 3), (7, 3), (8, 3), (6, 4), (7, 4), (8, 4), (6, 5), (7, 5), (8, 5)]
    );
}

#[test]
fn row_coords_lists_the_row_from_left_to_right() {
    assert_eq!(
        Sudoku::row_coords(3),
        vec![(0, 3), (1, 3), (2, 3), (3, 3), (4, 3), (5, 3), (6, 3), (7, 3), (8, 3)]
    );
    assert_eq!(Sudoku::row_coords(0)[8], (8, 0));
    assert_eq!(Sudoku::row_coords(8)[0], (0, 8));
}

#[test]
fn column_coords_lists_the_column_from_top_to_bottom() {
    assert_eq!(
        Sudoku::column_coords(4),
        vec![(4, 0), (4, 1), (4, 2), (4, 3), (4, 4), (4, 5), (4, 6), (4, 7), (4, 8)]
    );
    assert_eq!(Sudoku::column_coords(0)[8], (0, 8));
    assert_eq!(Sudoku::column_coords(8)[0], (8, 0));
}

#[test]
fn every_cell_lies_in_its_row_column_and_block() {
    for y in 0..9 {
        for x in 0..9 {
            assert!(Sudoku::row_coords(y).contains(&(x, y)));
            assert!(Sudoku::column_coords(x).contains(&(x, y)));
            assert!(Sudoku::quadrant_coords(x / 3, y / 3).contains(&(x, y)));
        }
    }
}

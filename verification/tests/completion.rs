use wfc_sudoku::sudoku::Sudoku;

fn solution_text() -> &'static str {
    "534678912\n\
     672195348\n\
     198342567\n\
     859761423\n\
     426853791\n\
     713924856\n\
     961537284\n\
     287419635\n\
     345286179\n"
}

fn puzzle_text() -> &'static str {
    "53..7....\n\
     6..195...\n\
     .98....6.\n\
     8...6...3\n\
     4..8.3..1\n\
     7...2...6\n\
     .6....28.\n\
     ...419..5\n\
     ....8..79\n"
}

fn rows_of(digit: char) -> String {
    let mut text = String::new();
    for _ in 0..9 {
        for _ in 0..9 {
            text.push(digit);
        }
        text.push('\n');
    }
    text
}

#[test]
fn solved_board_is_complete() {
    let board = Sudoku::from_text(solution_text());
    assert!(board.complete());
}

#[test]
fn shifted_rows_are_a_complete_board() {
    let board = Sudoku::from_text(
        "123456789\n456789123\n789123456\n234567891\n567891234\n891234567\n345678912\n678912345\n912345678\n",
    );
    assert!(board.complete());
}

#[test]
fn puzzle_is_not_complete() {
    let mut board = Sudoku::from_text(puzzle_text());
    assert!(!board.complete());
    board.update_possible_values();
    assert!(!board.complete());
}

#[test]
fn blank_board_is_not_complete() {
    let board = Sudoku::from_text("");
    assert!(!board.complete());
}

#[test]
fn one_open_cell_makes_a_board_incomplete() {
    let text = solution_text().replacen("534678912", "53467891.", 1);
    let mut board = Sudoku::from_text(&text);
    assert!(!board.complete());
    board.update_possible_values();
    assert_eq!(board.get_cell(8, 0).value().as_vec(), vec![2]);
    assert!(!board.complete());
    board.collapse_cell(8, 0).unwrap();
    assert!(board.complete());
}

#[test]
fn wrong_column_sum_makes_a_board_incomplete() {
    // Two digits of one row and one block change places: the row and the
    // block keep their sums, two columns do not.
    let text = solution_text().replacen("534678912", "354678912", 1);
    let board = Sudoku::from_text(&text);
    assert!(!board.complete());
}

#[test]
fn wrong_row_sum_makes_a_board_incomplete() {
    // Two digits of one column and one block change places.
    let text = solution_text()
        .replacen("534678912", "634678912", 1)
        .replacen("672195348", "572195348", 1);
    let board = Sudoku::from_text(&text);
    assert!(!board.complete());
}

#[test]
fn wrong_block_sum_makes_a_board_incomplete() {
    // Every row and every column holds 1 to 9, the blocks do not.
    let board = Sudoku::from_text(
        "123456789\n234567891\n345678912\n456789123\n567891234\n678912345\n789123456\n891234567\n912345678\n",
    );
    assert!(!board.complete());
}

#[test]
fn sum_check_accepts_a_board_of_fives() {
    // Each group adds up to 45, which is all the check asks for.
    let board = Sudoku::from_text(&rows_of('5'));
    assert!(board.complete());
}

#[test]
fn board_of_ones_is_not_complete() {
    let board = Sudoku::from_text(&rows_of('1'));
    assert!(!board.complete());
}

#[test]
fn zero_in_a_solved_board_makes_it_incomplete() {
    let text = solution_text().replacen("534678912", "034678912", 1);
    let board = Sudoku::from_text(&text);
    assert!(!board.complete());
}

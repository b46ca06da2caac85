use wfc_sudoku::sudoku::Sudoku;

fn blank_text() -> String {
    let mut text = String::new();
    for _ in 0..9 {
        text.push_str(".........\n");
    }
    text
}

fn puzzle_text() -> &'static str {
    "53..7....\n\
     6..195...\n\
     .98....6.\n\
     8...6...3\n\
     4..8.3..1\n\
     7...2...6\n\
     .6....28.\n\
     ...419..5\n\
     ....8..79\n"
}

fn solution_text() -> &'static str {
    "534678912\n\
     672195348\n\
     198342567\n\
     859761423\n\
     426853791\n\
     713924856\n\
     961537284\n\
     287419635\n\
     345286179\n"
}

fn digits_at(board: &Sudoku, x: usize, y: usize) -> Vec<u32> {
    board.get_cell(x, y).value().as_vec()
}

fn snapshot(board: &Sudoku) -> Vec<(bool, bool, Vec<u32>)> {
    let mut cells = Vec::new();
    for y in 0..9 {
        for x in 0..9 {
            let cell = board.get_cell(x, y);
            cells.push((cell.is_static(), cell.value().is_certain(), cell.value().as_vec()));
        }
    }
    cells
}

fn share_group(x: usize, y: usize, px: usize, py: usize) -> bool {
    px == x || py == y || (px / 3 == x / 3 && py / 3 == y / 3)
}

#[test]
fn blank_board_gets_all_nine_candidates_everywhere() {
    let mut board = Sudoku::from_text(&blank_text());
    board.update_possible_values();
    for y in 0..9 {
        for x in 0..9 {
            let cell = board.get_cell(x, y);
            assert!(!cell.is_static());
            assert!(!cell.value().is_certain());
            assert_eq!(cell.value().as_vec(), vec![1, 2, 3, 4, 5, 6, 7, 8, 9]);
        }
    }
}

#[test]
fn given_first_row_prunes_blocks_and_columns() {
    let mut board = Sudoku::from_text("123456789\n");
    board.update_possible_values();
    for x in 0..9 {
        let cell = board.get_cell(x, 0);
        assert!(cell.is_static());
        assert!(cell.value().is_certain());
        assert_eq!(cell.value().as_vec(), vec![x as u32 + 1]);
    }
    assert_eq!(digits_at(&board, 0, 1), vec![4, 5, 6, 7, 8, 9]);
    assert_eq!(digits_at(&board, 2, 2), vec![4, 5, 6, 7, 8, 9]);
    assert_eq!(digits_at(&board, 3, 1), vec![1, 2, 3, 7, 8, 9]);
    assert_eq!(digits_at(&board, 8, 2), vec![1, 2, 3, 4, 5, 6]);
    assert_eq!(digits_at(&board, 0, 3), vec![2, 3, 4, 5, 6, 7, 8, 9]);
    assert_eq!(digits_at(&board, 4, 5), vec![1, 2, 3, 4, 6, 7, 8, 9]);
    assert_eq!(digits_at(&board, 8, 8), vec![1, 2, 3, 4, 5, 6, 7, 8]);
    for y in 1..3 {
        for x in 0..9 {
            assert_eq!(digits_at(&board, x, y).len(), 6);
        }
    }
    for y in 3..9 {
        for x in 0..9 {
            assert_eq!(digits_at(&board, x, y).len(), 8);
        }
    }
}

#[test]
fn row_with_one_gap_leaves_one_candidate() {
    let mut board = Sudoku::from_text("12345678.\n");
    board.update_possible_values();
    assert_eq!(digits_at(&board, 8, 0), vec![9]);
    assert!(!board.get_cell(8, 0).value().is_certain());
}

#[test]
fn exhausted_row_and_column_leave_no_candidate() {
    let mut board = Sudoku::from_text("12345678.\n.........\n.........\n........9\n");
    board.update_possible_values();
    assert_eq!(digits_at(&board, 8, 0), Vec::<u32>::new());
    assert!(!board.get_cell(8, 0).value().is_certain());
    assert!(!board.get_cell(8, 0).is_static());
}

#[test]
fn full_row_leaves_no_candidate_for_an_open_cell_in_it() {
    // Nine givens cannot share a row with an open cell, so the row is
    // exhausted through the block and the column of the open cell.
    let mut board = Sudoku::from_text(".23456789\n1........\n");
    board.update_possible_values();
    assert_eq!(digits_at(&board, 0, 0), Vec::<u32>::new());
}

#[test]
fn zero_given_excludes_nothing() {
    let mut board = Sudoku::from_text("0........\n");
    board.update_possible_values();
    assert_eq!(digits_at(&board, 1, 0), vec![1, 2, 3, 4, 5, 6, 7, 8, 9]);
    assert_eq!(digits_at(&board, 0, 0), vec![0]);
}

#[test]
fn single_cell_update_computes_that_cell_alone() {
    let mut board = Sudoku::from_text(puzzle_text());
    let before = snapshot(&board);
    board.update_possible_cell_values(4, 4);
    let after = snapshot(&board);
    for i in 0..81 {
        if i == 4 * 9 + 4 {
            assert_eq!(after[i], (false, false, vec![5]));
        } else {
            assert_eq!(after[i], before[i], "cell {}", i);
        }
    }
    board.update_possible_cell_values(2, 0);
    assert_eq!(digits_at(&board, 2, 0), vec![1, 2, 4]);
    board.update_possible_cell_values(8, 0);
    assert_eq!(digits_at(&board, 8, 0), vec![2, 4, 8]);
}

#[test]
fn single_cell_update_leaves_given_cells_alone() {
    let mut board = Sudoku::from_text(puzzle_text());
    let before = snapshot(&board);
    board.update_possible_cell_values(0, 0);
    board.update_possible_cell_values(4, 0);
    board.update_possible_cell_values(8, 8);
    assert_eq!(snapshot(&board), before);
}

#[test]
fn single_cell_update_leaves_settled_cells_alone() {
    let mut board = Sudoku::from_text(&blank_text());
    board.update_possible_values();
    let siblings = board.branch(3, 3, 6, &vec![]);
    assert!(siblings.is_empty());
    let before = snapshot(&board);
    board.update_possible_cell_values(3, 3);
    assert_eq!(snapshot(&board), before);
    assert_eq!(digits_at(&board, 3, 3), vec![6]);
    assert!(board.get_cell(3, 3).value().is_certain());
    assert!(!board.get_cell(3, 3).is_static());
}

#[test]
fn settled_cells_prune_like_given_cells() {
    let mut board = Sudoku::from_text(&blank_text());
    board.update_possible_values();
    board.branch(4, 4, 5, &vec![]);
    board.update_possible_values();
    assert_eq!(digits_at(&board, 4, 4), vec![5]);
    assert_eq!(digits_at(&board, 0, 4), vec![1, 2, 3, 4, 6, 7, 8, 9]);
    assert_eq!(digits_at(&board, 4, 8), vec![1, 2, 3, 4, 6, 7, 8, 9]);
    assert_eq!(digits_at(&board, 3, 5), vec![1, 2, 3, 4, 6, 7, 8, 9]);
    assert_eq!(digits_at(&board, 0, 0), vec![1, 2, 3, 4, 5, 6, 7, 8, 9]);
    assert_eq!(digits_at(&board, 6, 3), vec![1, 2, 3, 4, 5, 6, 7, 8, 9]);
}

#[test]
fn pass_replaces_stale_candidates() {
    let mut board = Sudoku::from_text(&blank_text());
    board.update_possible_values();
    board.branch(0, 0, 9, &vec![]);
    assert_eq!(digits_at(&board, 1, 0), vec![1, 2, 3, 4, 5, 6, 7, 8, 9]);
    board.update_possible_values();
    assert_eq!(digits_at(&board, 1, 0), vec![1, 2, 3, 4, 5, 6, 7, 8]);
}

#[test]
fn no_settled_digit_is_a_candidate_of_a_peer() {
    let mut board = Sudoku::from_text(puzzle_text());
    board.update_possible_values();
    let mut compared = 0;
    for y in 0..9 {
        for x in 0..9 {
            if !board.get_cell(x, y).value().is_certain() {
                continue;
            }
            let digit = digits_at(&board, x, y)[0];
            for py in 0..9 {
                for px in 0..9 {
                    let peer = board.get_cell(px, py);
                    if share_group(x, y, px, py) && !peer.value().is_certain() {
                        assert!(!peer.value().as_vec().contains(&digit));
                        compared += 1;
                    }
                }
            }
        }
    }
    assert!(compared > 0);
}

#[test]
fn candidates_are_exactly_the_digits_no_peer_is_settled_on() {
    let mut board = Sudoku::from_text(puzzle_text());
    board.update_possible_values();
    for y in 0..9 {
        for x in 0..9 {
            if board.get_cell(x, y).value().is_certain() {
                continue;
            }
            let mut expected = Vec::new();
            for digit in 1..=9u32 {
                let mut excluded = false;
                for py in 0..9 {
                    for px in 0..9 {
                        let peer = board.get_cell(px, py);
                        if share_group(x, y, px, py)
                            && peer.value().is_certain()
                            && peer.value().as_vec()[0] == digit
                        {
                            excluded = true;
                        }
                    }
                }
                if !excluded {
                    expected.push(digit);
                }
            }
            assert_eq!(digits_at(&board, x, y), expected, "cell ({}, {})", x, y);
        }
    }
}

#[test]
fn pass_over_a_solved_board_changes_nothing() {
    let mut board = Sudoku::from_text(solution_text());
    let before = snapshot(&board);
    board.update_possible_values();
    assert_eq!(snapshot(&board), before);
}

#[test]
fn least_entropy_on_a_blank_board_is_the_first_cell() {
    let mut board = Sudoku::from_text(&blank_text());
    assert_eq!(board.find_less_entropy(), (0, 0));
    board.update_possible_values();
    assert_eq!(board.find_less_entropy(), (0, 0));
}

#[test]
fn least_entropy_skips_given_cells_before_candidates_are_computed() {
    let board = Sudoku::from_text(puzzle_text());
    assert_eq!(board.find_less_entropy(), (2, 0));
}

#[test]
fn least_entropy_is_the_first_cell_with_the_fewest_candidates() {
    let mut board = Sudoku::from_text(puzzle_text());
    board.update_possible_values();
    let mut expected = (0, 0);
    let mut fewest = usize::MAX;
    for y in 0..9 {
        for x in 0..9 {
            let value = board.get_cell(x, y).value();
            if !value.is_certain() && value.as_vec().len() < fewest {
                fewest = value.as_vec().len();
                expected = (x, y);
            }
        }
    }
    assert_eq!(fewest, 1);
    assert_eq!(expected, (4, 4));
    assert_eq!(board.find_less_entropy(), (4, 4));
}

#[test]
fn least_entropy_prefers_fewer_candidates_to_earlier_cells() {
    let mut board = Sudoku::from_text("........\n.........\n12345678.\n");
    board.update_possible_values();
    assert_eq!(digits_at(&board, 8, 2), vec![9]);
    assert_eq!(board.find_less_entropy(), (8, 2));
}

#[test]
fn least_entropy_takes_the_earlier_of_two_equal_cells() {
    let mut board = Sudoku::from_text(".........\n1234567..\n");
    board.update_possible_values();
    assert_eq!(digits_at(&board, 7, 1), vec![8, 9]);
    assert_eq!(digits_at(&board, 8, 1), vec![8, 9]);
    assert_eq!(board.find_less_entropy(), (7, 1));
}

#[test]
fn least_entropy_of_a_cell_without_candidates_wins() {
    let mut board = Sudoku::from_text("12345678.\n.........\n.........\n........9\n");
    board.update_possible_values();
    assert_eq!(board.find_less_entropy(), (8, 0));
}

#[test]
fn least_entropy_on_a_settled_board_is_the_origin() {
    let board = Sudoku::from_text(solution_text());
    assert_eq!(board.find_less_entropy(), (0, 0));
}

#[test]
fn reset_clears_all_but_the_givens() {
    let mut board = Sudoku::from_text(puzzle_text());
    let fresh = snapshot(&board);
    board.update_possible_values();
    let (x, y) = board.find_less_entropy();
    board.collapse_cell(x, y).unwrap();
    board.update_possible_values();
    assert_ne!(snapshot(&board), fresh);
    board.reset_board();
    assert_eq!(snapshot(&board), fresh);
    for y in 0..9 {
        for x in 0..9 {
            let cell = board.get_cell(x, y);
            if !cell.is_static() {
                assert!(!cell.value().is_certain());
                assert!(cell.value().as_vec().is_empty());
            }
        }
    }
}

#[test]
fn reset_of_a_fresh_board_changes_nothing() {
    let mut board = Sudoku::from_text(puzzle_text());
    let fresh = snapshot(&board);
    board.reset_board();
    assert_eq!(snapshot(&board), fresh);
}

#[test]
fn reset_and_pass_give_what_a_fresh_load_and_pass_give() {
    let mut fresh = Sudoku::from_text(puzzle_text());
    fresh.update_possible_values();

    let mut board = Sudoku::from_text(puzzle_text());
    let mut collapsed = 0;
    for _ in 0..5 {
        board.update_possible_values();
        let (x, y) = board.find_less_entropy();
        if board.collapse_cell(x, y).is_ok() {
            collapsed += 1;
        }
    }
    assert!(collapsed > 0);
    board.reset_board();
    board.update_possible_values();
    assert_eq!(snapshot(&board), snapshot(&fresh));
}

use std::collections::HashSet;

use sudoku::{Sudoku, SudokuBoard};

const CLASSIC: &str = "53..7....6..195....98....6.8...6...34..8.3..17...2...6.6....28....419..5....8..79";

const CLASSIC_SOLUTION: [&str; 9] = [
    "534678912",
    "672195348",
    "198342567",
    "859761423",
    "426853791",
    "713924856",
    "961537284",
    "287419635",
    "345286179",
];

fn digit_mask(d: u32) -> u16 {
    1u16 << d
}

#[test]
fn init_works() {
    let s = SudokuBoard::new();
    assert_eq!(s.units.len(), 27);
    assert!((0..81).map(|i| s.units_for[i].len()).all(|n| n == 3));
    assert!((0..81).map(|i| s.neighbors[i].len()).all(|n| n == 20));
    assert_eq!(s.units_for[19], vec![2, 10, 18]);
    assert_eq!(s.units[18], vec![0, 1, 2, 9, 10, 11, 18, 19, 20]);
    assert_eq!(
        s.neighbors[19].iter().copied().collect::<HashSet<usize>>(),
        HashSet::from_iter(vec![
            18, 20, 21, 22, 23, 24, 25, 26, 01, 10, 28, 37, 46, 55, 64, 73, 00, 02, 09, 11,
        ])
    );
}

#[test]
fn eliminate_is_idempotent() {
    let board = SudokuBoard::new();
    let mut s = Sudoku::new();
    assert!(s.eliminate(&board, 0, 5));
    let snapshot = s.cells.clone();
    assert!(s.eliminate(&board, 0, 5));
    assert_eq!(s.cells, snapshot);
}

#[test]
fn assign_pins_cell_and_clears_peers() {
    let board = SudokuBoard::new();
    let mut s = Sudoku::new();
    assert!(s.assign(&board, 0, 5));
    assert_eq!(s.cells[0], digit_mask(5));
    assert_eq!(s.uniq_val(0), 5);
    for &p in board.neighbors[0].iter() {
        assert_eq!(s.cells[p] & digit_mask(5), 0);
    }
}

#[test]
fn short_line_leaves_remaining_cells_blank() {
    let board = SudokuBoard::new();
    let s = Sudoku::from("", &board).expect("empty line must seed");
    assert_eq!(s.cells, vec![0x03FEu16; 81]);
}

#[test]
fn classic_puzzle_has_known_solution() {
    let board = SudokuBoard::new();
    let seeded = Sudoku::from(CLASSIC, &board).expect("classic puzzle must seed");
    let solved = seeded.solve(&board).expect("classic puzzle must solve");
    for r in 0..9 {
        for (c, ch) in CLASSIC_SOLUTION[r].chars().enumerate() {
            let d = ch.to_digit(10).unwrap();
            assert_eq!(solved.cells[r * 9 + c], digit_mask(d));
        }
    }
}

#[test]
fn separators_are_ignored() {
    let board = SudokuBoard::new();
    let spaced: String = CLASSIC.chars().map(|c| format!("{} ,", c)).collect();
    let seeded = Sudoku::from(&spaced, &board).expect("spaced puzzle must seed");
    let solved = seeded.solve(&board).expect("spaced puzzle must solve");
    for r in 0..9 {
        for (c, ch) in CLASSIC_SOLUTION[r].chars().enumerate() {
            let d = ch.to_digit(10).unwrap();
            assert_eq!(solved.cells[r * 9 + c], digit_mask(d));
        }
    }
}

#[test]
fn solving_twice_gives_identical_output() {
    let board = SudokuBoard::new();
    let blank = ".".repeat(81);
    let first = Sudoku::from(&blank, &board)
        .unwrap()
        .solve(&board)
        .unwrap()
        .to_grid_string();
    let second = Sudoku::from(&blank, &board)
        .unwrap()
        .solve(&board)
        .unwrap()
        .to_grid_string();
    assert_eq!(first, second);
    let a = Sudoku::from(CLASSIC, &board)
        .unwrap()
        .solve(&board)
        .unwrap()
        .to_grid_string();
    let b = Sudoku::from(CLASSIC, &board)
        .unwrap()
        .solve(&board)
        .unwrap()
        .to_grid_string();
    assert_eq!(a, b);
}

#[test]
fn duplicate_givens_in_a_row_are_rejected() {
    let board = SudokuBoard::new();
    let line = format!("55{}", ".".repeat(79));
    assert!(Sudoku::from(&line, &board).is_none());
}

#[test]
fn given_past_the_81st_token_is_rejected() {
    let board = SudokuBoard::new();
    let line = format!("{}5", ".".repeat(81));
    assert!(Sudoku::from(&line, &board).is_none());
}

#[test]
fn blank_puzzle_solves_to_a_valid_grid() {
    let board = SudokuBoard::new();
    let blank = ".".repeat(81);
    let seeded = Sudoku::from(&blank, &board).expect("blank puzzle must seed");
    let solved = seeded.solve(&board).expect("blank puzzle must solve");
    let mut digits = [0u32; 81];
    for c in 0..81 {
        let m = solved.cells[c];
        let d = (1..=9).find(|d| m == digit_mask(*d)).expect("cell must be a single digit");
        digits[c] = d;
    }
    for u in 0..27 {
        let members: Vec<usize> = (0..9)
            .map(|i| {
                if u < 9 {
                    u * 9 + i
                } else if u < 18 {
                    i * 9 + (u - 9)
                } else {
                    let b = u - 18;
                    (b / 3 * 3 + i / 3) * 9 + (b % 3 * 3 + i % 3)
                }
            })
            .collect();
        let seen: HashSet<u32> = members.iter().map(|&c| digits[c]).collect();
        assert_eq!(seen, (1..=9).collect::<HashSet<u32>>());
    }
}

#[test]
fn solved_grid_prints_with_separators() {
    let board = SudokuBoard::new();
    let solved = Sudoku::from(CLASSIC, &board)
        .unwrap()
        .solve(&board)
        .unwrap();
    let sep = "-".repeat(6);
    let band = format!("{}+-{}+-{}\n", sep, sep, sep);
    let mut expected = String::new();
    for (i, row) in CLASSIC_SOLUTION.iter().enumerate() {
        if i == 3 || i == 6 {
            expected.push_str(&band);
        }
        for (j, ch) in row.chars().enumerate() {
            if j == 3 || j == 6 {
                expected.push_str("| ");
            }
            expected.push(ch);
            expected.push(' ');
        }
        expected.push('\n');
    }
    expected.push('\n');
    assert_eq!(solved.to_grid_string(), expected);
}

#[test]
fn fresh_state_branches_at_first_cell() {
    let s = Sudoku::new();
    assert_eq!(s.smaller_cell(), Some(0));
    assert!(!s.is_solved());
}

use array2d::Array2D;
use sudoku_engine::SudokuError;
use sudoku_engine::engine::{count_solutions, generate, hint, solve};

/// A grid that is free of direct conflicts but has no completion: the
/// cell at (0, 0) is empty, yet every digit is ruled out by its row, its
/// column or its box.
fn unsolvable_grid() -> Array2D<u8> {
    let mut values = Array2D::filled_with(0, 9, 9);
    // Row 0 rules out 1, 2, 3.
    values[(0, 3)] = 1;
    values[(0, 4)] = 2;
    values[(0, 5)] = 3;
    // Column 0 rules out 4, 5, 6.
    values[(3, 0)] = 4;
    values[(4, 0)] = 5;
    values[(5, 0)] = 6;
    // Box 0 rules out 7, 8, 9.
    values[(1, 1)] = 7;
    values[(1, 2)] = 8;
    values[(2, 1)] = 9;
    values
}

#[test]
fn test_solve_rows_cols_boxes_are_permutations() {
    let rows = vec![
        vec![0, 0, 0, 0, 0, 0, 7, 0, 9],
        vec![0, 0, 0, 0, 0, 0, 1, 0, 0],
        vec![0, 0, 0, 1, 2, 0, 0, 0, 0],
        vec![0, 0, 0, 0, 6, 0, 0, 0, 0],
        vec![0, 0, 5, 8, 0, 0, 2, 0, 4],
        vec![0, 9, 7, 2, 0, 0, 0, 6, 5],
        vec![5, 0, 1, 0, 0, 2, 0, 0, 0],
        vec![0, 0, 0, 0, 0, 0, 0, 0, 0],
        vec![0, 0, 0, 0, 0, 0, 0, 0, 0],
    ];
    let values = Array2D::from_rows(&rows).unwrap();
    let solution = solve(&values, Option::None).unwrap();

    // Every originally filled cell is unchanged.
    for r in 0..9 {
        for c in 0..9 {
            if values[(r, c)] > 0 {
                assert_eq!(solution[(r, c)], values[(r, c)]);
            }
        }
    }

    // Every row, column and box holds each digit 1..=9 exactly once.
    for u in 0..9 {
        let mut row_seen = [false; 10];
        let mut col_seen = [false; 10];
        let mut box_seen = [false; 10];
        for i in 0..9 {
            row_seen[solution[(u, i)] as usize] = true;
            col_seen[solution[(i, u)] as usize] = true;
            let r = 3 * (u / 3) + i / 3;
            let c = 3 * (u % 3) + i % 3;
            box_seen[solution[(r, c)] as usize] = true;
        }
        for d in 1..10 {
            assert!(row_seen[d] && col_seen[d] && box_seen[d]);
        }
    }
}

#[test]
fn test_solve_no_solution() {
    let values = unsolvable_grid();
    assert_eq!(solve(&values, Option::None), Err(SudokuError::NoSolution));
    assert_eq!(solve(&values, Option::Some(3)), Err(SudokuError::NoSolution));
    assert_eq!(count_solutions(&values, 10), 0);
}

#[test]
fn test_solve_conflict() {
    let mut values = Array2D::filled_with(0, 9, 9);
    values[(2, 4)] = 6;
    values[(7, 4)] = 6;
    assert_eq!(solve(&values, Option::None), Err(SudokuError::Conflict));
    assert_eq!(count_solutions(&values, 10), 0);
}

#[test]
fn test_generate_exact_blank_count() {
    let empty = Array2D::filled_with(0, 9, 9);
    let (clues, solution) = generate(&empty, 9, 45).unwrap();

    let mut blanks = 0;
    for r in 0..9 {
        for c in 0..9 {
            if clues[(r, c)] == 0 {
                blanks += 1;
            } else {
                assert_eq!(clues[(r, c)], solution[(r, c)]);
            }
            assert!(solution[(r, c)] >= 1 && solution[(r, c)] <= 9);
        }
    }
    assert_eq!(blanks, 45);
    assert_eq!(count_solutions(&clues, 2), 1);
}

#[test]
fn test_generate_deterministic() {
    let empty = Array2D::filled_with(0, 9, 9);
    let first = generate(&empty, 123, 40).unwrap();
    let second = generate(&empty, 123, 40).unwrap();
    assert_eq!(first.0, second.0);
    assert_eq!(first.1, second.1);
}

#[test]
fn test_generate_difficulty_boundary() {
    let empty = Array2D::filled_with(0, 9, 9);
    assert_eq!(generate(&empty, 1, 59), Err(SudokuError::InvalidDifficulty));

    // A puzzle with 20 blanks cannot lose 21 clues.
    let (clues, _) = generate(&empty, 5, 20).unwrap();
    assert_eq!(generate(&clues, 5, 21), Err(SudokuError::InvalidDifficulty));
}

#[test]
fn test_generate_conflict_and_unsolvable() {
    let mut values = Array2D::filled_with(0, 9, 9);
    values[(2, 4)] = 6;
    values[(7, 4)] = 6;
    assert_eq!(generate(&values, 1, 10), Err(SudokuError::Conflict));

    let values = unsolvable_grid();
    assert_eq!(generate(&values, 1, 10), Err(SudokuError::NoSolution));
}

#[test]
fn test_generate_generation_error() {
    // Asking for exactly as many blanks as there are blank cells cannot
    // succeed: the removal walk runs off the end of its queue before the
    // target is reached. A full grid with target 0 is the immediate case.
    let empty = Array2D::filled_with(0, 9, 9);
    let solution = solve(&empty, Option::Some(4)).unwrap();
    assert_eq!(generate(&solution, 7, 0), Err(SudokuError::Generation));
}

#[test]
fn test_hint_picks_empty_cell() {
    let rows = vec![
        vec![0, 0, 0, 0, 0, 0, 7, 0, 9],
        vec![0, 0, 0, 0, 0, 0, 1, 0, 0],
        vec![0, 0, 0, 1, 2, 0, 0, 0, 0],
        vec![0, 0, 0, 0, 6, 0, 0, 0, 0],
        vec![0, 0, 5, 8, 0, 0, 2, 0, 4],
        vec![0, 9, 7, 2, 0, 0, 0, 6, 5],
        vec![5, 0, 1, 0, 0, 2, 0, 0, 0],
        vec![0, 0, 0, 0, 0, 0, 0, 0, 0],
        vec![0, 0, 0, 0, 0, 0, 0, 0, 0],
    ];
    let values = Array2D::from_rows(&rows).unwrap();
    let (r, c) = hint(&values).unwrap();
    assert!(r < 9 && c < 9);
    assert_eq!(values[(r, c)], 0);
}

#[test]
fn test_hint_no_empty_cells() {
    let empty = Array2D::filled_with(0, 9, 9);
    let solution = solve(&empty, Option::None).unwrap();
    assert_eq!(hint(&solution), Err(SudokuError::NoHint));
}

#[test]
fn test_hint_conflict() {
    let mut values = Array2D::filled_with(0, 9, 9);
    values[(0, 0)] = 4;
    values[(0, 8)] = 4;
    assert_eq!(hint(&values), Err(SudokuError::Conflict));
}

#[test]
fn test_hint_most_constrained() {
    // Row 0 holds 1..=8, so (0, 8) is the only cell with one candidate.
    let mut values = Array2D::filled_with(0, 9, 9);
    for c in 0..8 {
        values[(0, c)] = (c + 1) as u8;
    }
    let (r, c) = hint(&values).unwrap();
    assert_eq!((r, c), (0, 8));
}

#[test]
fn test_count_solutions_limit_cap() {
    let empty = Array2D::filled_with(0, 9, 9);
    assert_eq!(count_solutions(&empty, 7), 7);
    assert_eq!(count_solutions(&empty, 0), 0);
}

#[test]
fn test_generate_seed_changes_puzzle() {
    let empty = Array2D::filled_with(0, 9, 9);
    let (_, first) = generate(&empty, 1, 30).unwrap();
    let (_, second) = generate(&empty, 2, 30).unwrap();
    // Two seeds giving the very same solved grid would mean the seeded
    // shuffle ignored its seed.
    assert_ne!(first, second);
}

use array2d::Array2D;
use sudoku_engine::board::Sudoku;
use sudoku_engine::engine::{count_solutions, generate, solve};
use std::time::Instant;

#[test]
fn test_count_solutions() {
    let rows = vec![
        vec![0, 0, 0, 0, 0, 0, 7, 0, 9],
        vec![0, 0, 0, 0, 0, 0, 1, 0, 0],
        vec![0, 0, 0, 1, 2, 0, 0, 0, 0],
        vec![0, 0, 0, 0, 6, 0, 0, 0, 0],
        vec![0, 0, 5, 8, 0, 0, 2, 0, 4],
        vec![0, 9, 7, 2, 0, 0, 0, 6, 5],
        vec![5, 0, 1, 0, 0, 2, 0, 0, 0],
        vec![0, 0, 0, 0, 0, 0, 0, 0, 0],
        vec![0, 0, 0, 0, 0, 0, 0, 0, 0],
    ];

    let values = Array2D::from_rows(&rows).unwrap();

    let now = Instant::now();
    assert_eq!(count_solutions(&values, 100), 100);

    let elapsed = now.elapsed();
    println!("Elapsed: {:.2?}", elapsed);
}

#[test]
fn test_create_invalid_grids() {
    // conflict in col 4
    let mut rows = vec![
        vec![0, 0, 0, 0, 0, 0, 7, 0, 9],
        vec![0, 0, 0, 0, 0, 0, 1, 0, 0],
        vec![0, 0, 0, 1, 2, 0, 0, 0, 0],
        vec![0, 0, 0, 0, 6, 0, 0, 0, 0],
        vec![0, 0, 5, 8, 0, 0, 2, 0, 4],
        vec![0, 9, 7, 2, 0, 0, 0, 6, 5],
        vec![5, 0, 1, 0, 0, 2, 0, 0, 0],
        vec![0, 0, 0, 0, 0, 0, 0, 0, 0],
        vec![0, 0, 0, 0, 6, 0, 0, 0, 0],
    ];
    let mut values = Array2D::from_rows(&rows).unwrap();
    assert!(Sudoku::new(Option::Some(&values)).is_err());

    // conflict on row 4
    rows = vec![
        vec![0, 0, 0, 0, 0, 0, 7, 0, 9],
        vec![0, 0, 0, 0, 0, 0, 1, 0, 0],
        vec![0, 0, 0, 1, 2, 0, 0, 0, 0],
        vec![0, 0, 0, 0, 6, 0, 0, 0, 0],
        vec![0, 0, 5, 8, 0, 0, 2, 8, 4],
        vec![0, 9, 7, 2, 0, 0, 0, 6, 5],
        vec![5, 0, 1, 0, 0, 2, 0, 0, 0],
        vec![0, 0, 0, 0, 0, 0, 0, 0, 0],
        vec![0, 0, 0, 0, 0, 0, 0, 0, 0],
    ];
    values = Array2D::from_rows(&rows).unwrap();
    assert!(Sudoku::new(Option::Some(&values)).is_err());

    // conflict in quad 3
    rows = vec![
        vec![0, 0, 0, 0, 0, 0, 7, 0, 9],
        vec![0, 0, 0, 0, 0, 0, 1, 0, 0],
        vec![0, 0, 0, 1, 2, 0, 0, 0, 0],
        vec![5, 0, 0, 0, 6, 0, 0, 0, 0],
        vec![0, 0, 5, 8, 0, 0, 2, 0, 4],
        vec![0, 9, 7, 2, 0, 0, 0, 6, 5],
        vec![5, 0, 1, 0, 0, 2, 0, 0, 0],
        vec![0, 0, 0, 0, 0, 0, 0, 0, 0],
        vec![0, 0, 0, 0, 0, 0, 0, 0, 0],
    ];
    values = Array2D::from_rows(&rows).unwrap();
    assert!(Sudoku::new(Option::Some(&values)).is_err());
}

#[test]
fn test_solve() {
    let rows = vec![
        vec![0, 0, 0, 0, 0, 0, 7, 0, 9],
        vec![0, 0, 0, 0, 0, 0, 1, 0, 0],
        vec![0, 0, 0, 1, 2, 0, 0, 0, 0],
        vec![0, 0, 0, 0, 6, 0, 0, 0, 0],
        vec![0, 0, 5, 8, 0, 0, 2, 0, 4],
        vec![0, 9, 7, 2, 0, 0, 0, 6, 5],
        vec![5, 0, 1, 0, 0, 2, 0, 0, 0],
        vec![0, 0, 0, 0, 0, 0, 0, 0, 0],
        vec![0, 0, 0, 0, 0, 0, 0, 0, 0],
    ];
    let values = Array2D::from_rows(&rows).unwrap();

    let mut now = Instant::now();

    let mut solution = solve(&values, Option::Some(5));

    let mut elapsed = now.elapsed();
    println!("Elapsed: {:.2?}", elapsed);

    assert!(solution.is_ok());
    assert!(solution.unwrap().elements_row_major_iter().all(|i| *i > 0));

    now = Instant::now();

    solution = solve(&values, Option::None);

    elapsed = now.elapsed();
    println!("Elapsed: {:.2?}", elapsed);

    assert!(solution.is_ok());
    assert!(solution.unwrap().elements_row_major_iter().all(|i| *i > 0));
}

#[test]
fn test_generate() {
    let values = Array2D::filled_with(0, 9, 9);

    let now = Instant::now();

    let solution = generate(&values, 42, 58);

    let elapsed = now.elapsed();
    println!("Elapsed: {:.2?}", elapsed);

    assert!(solution.is_ok());
}

#[test]
fn test_generate_with_preset() {
    let rows = vec![
        vec![0, 0, 0, 0, 0, 0, 7, 0, 9],
        vec![0, 0, 0, 0, 0, 0, 1, 0, 0],
        vec![0, 0, 0, 1, 2, 0, 0, 0, 0],
        vec![0, 0, 0, 0, 6, 0, 0, 0, 0],
        vec![0, 0, 5, 8, 0, 0, 2, 0, 4],
        vec![0, 9, 7, 2, 0, 0, 0, 6, 5],
        vec![5, 0, 1, 0, 0, 2, 0, 0, 0],
        vec![0, 0, 0, 0, 0, 0, 0, 0, 0],
        vec![0, 0, 0, 0, 0, 0, 0, 0, 0],
    ];
    let values = Array2D::from_rows(&rows).unwrap();

    let now = Instant::now();

    let solution = generate(&values, 37, 50);

    let elapsed = now.elapsed();
    println!("Elapsed: {:.2?}", elapsed);

    assert!(solution.is_ok());

    let s = solution.unwrap().0;
    for i in 0..9 {
        for j in 0..9 {
            let initial_value = values[(i, j)];
            if initial_value > 0 {
                assert_eq!(initial_value, s[(i, j)])
            }
        }
    }
}

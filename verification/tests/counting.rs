use array2d::Array2D;
use rand::seq::SliceRandom;
use sudoku_engine::board::Sudoku;
use sudoku_engine::engine::{count_solutions, generate, solve};
use std::time::Instant;

fn check(s: &Sudoku, row: usize, col: usize, val: usize) {
    let mut v: Vec<usize> = vec![];
    let val_zero_based = val as i32 - 1;

    for i in 0..9 {
        if i == val_zero_based {
            continue;
        }
        v.push(i as usize);
    }

    for i in 0..9 {
        if row != i {
            assert_eq!(s.get_possible_moves(row * 9 + i).unwrap(), v.clone());
        }

        if col != i {
            assert_eq!(s.get_possible_moves(i * 9 + col).unwrap(), v.clone());
        }

        if !(row == i && col == i) {
            let r = i / 3;
            let c = i % 3;

            assert_eq!(s.get_possible_moves(r * 9 + c).unwrap(), v.clone());
        }
    }
}

#[test]
fn lib_test_solution_counter_empty() {
    let values = Array2D::filled_with(0, 9, 9);
    assert!(count_solutions(&values, 2) > 1);
}

#[test]
fn lib_test_solution_counter_full() {
    let empty = Array2D::filled_with(0, 9, 9);
    let solution = solve(&empty, Option::None).unwrap();
    assert!(count_solutions(&solution, 2) == 1);
}

#[test]
fn lib_test_solution_counter_partial() {
    let empty = Array2D::filled_with(0, 9, 9);
    let mut values = solve(&empty, Option::None).unwrap();

    let mut cursor_random_mask: [usize; 81] = [0; 81];
    for i in 0..81 {
        cursor_random_mask[i] = i;
    }
    cursor_random_mask.shuffle(&mut rand::thread_rng());

    for i in 0..20 {
        let cell = cursor_random_mask[i];
        values[(cell / 9, cell % 9)] = 0;
    }

    let values_before = values.clone();
    assert!(count_solutions(&values, 2) == 1);

    assert_eq!(values_before, values);
}

#[test]
fn lib_test_solution_counter_partial_2() {
    let mut values = Array2D::filled_with(0, 9, 9);
    values[(0, 6)] = 7;
    values[(0, 8)] = 9;
    values[(1, 6)] = 1;
    values[(2, 3)] = 1;
    values[(2, 4)] = 2;
    values[(3, 4)] = 6;
    values[(4, 2)] = 5;
    values[(4, 3)] = 8;
    values[(4, 6)] = 2;
    values[(4, 8)] = 4;
    values[(5, 1)] = 9;
    values[(5, 2)] = 7;
    values[(5, 3)] = 2;
    values[(5, 7)] = 6;
    values[(5, 8)] = 5;
    values[(6, 0)] = 5;
    values[(6, 2)] = 1;
    values[(6, 5)] = 2;

    assert!(count_solutions(&values, 2) > 1);
}

#[test]
fn lib_test_set_value() {
    let s = &mut Sudoku::new(Option::None).unwrap();

    s.set_value(0, 1);
    check(s, 0, 0, 1);

    s.reset_value(0, 1);
    s.set_value(0, 2);
    check(s, 0, 0, 2);

    s.reset_value(0, 2);
    check(s, 0, 0, 0)
}

#[test]
fn state_test_solution_counter_empty() {
    let values = Array2D::filled_with(0, 9, 9);
    assert!(count_solutions(&values, 2) > 1);
}

#[test]
fn state_test_solution_counter_full() {
    let empty = Array2D::filled_with(0, 9, 9);
    let solution = solve(&empty, Option::None).unwrap();
    assert!(count_solutions(&solution, 2) == 1);
}

#[test]
fn state_test_solution_counter_partial() {
    let empty = Array2D::filled_with(0, 9, 9);
    let mut values = solve(&empty, Option::None).unwrap();

    let mut cursor_random_mask: [usize; 81] = [0; 81];
    for i in 0..81 {
        cursor_random_mask[i] = i;
    }
    cursor_random_mask.shuffle(&mut rand::thread_rng());

    for i in 0..20 {
        let cell = cursor_random_mask[i];
        values[(cell / 9, cell % 9)] = 0;
    }

    let values_before = values.clone();
    assert!(count_solutions(&values, 2) == 1);

    assert_eq!(values_before, values);
}

#[test]
fn state_test_solution_counter_partial_2() {
    let mut values = Array2D::filled_with(0, 9, 9);
    values[(0, 6)] = 7;
    values[(0, 8)] = 9;
    values[(1, 6)] = 1;
    values[(2, 3)] = 1;
    values[(2, 4)] = 2;
    values[(3, 4)] = 6;
    values[(4, 2)] = 5;
    values[(4, 3)] = 8;
    values[(4, 6)] = 2;
    values[(4, 8)] = 4;
    values[(5, 1)] = 9;
    values[(5, 2)] = 7;
    values[(5, 3)] = 2;
    values[(5, 7)] = 6;
    values[(5, 8)] = 5;
    values[(6, 0)] = 5;
    values[(6, 2)] = 1;
    values[(6, 5)] = 2;

    assert!(count_solutions(&values, 2) > 1);
}

#[test]
fn state_test_set_value() {
    let s = &mut Sudoku::new(Option::None).unwrap();

    s.set_value(0, 1);
    check(s, 0, 0, 1);

    s.reset_value(0, 1);
    s.set_value(0, 2);
    check(s, 0, 0, 2);

    s.reset_value(0, 2);
    check(s, 0, 0, 0)
}

#[test]
fn state_test_solution_counter_partial_3() {
    let mut s = Sudoku::new(Option::None).unwrap();

    s.set_value(0, 1); // value 1 at row 0, col 0
    s.set_value(1 * 9 + 3, 2); // value 2 at row 1, col 3
    s.set_value(3 * 9 + 1, 3); // value 3 at row 3, col 1
    s.set_value(5 * 9 + 4, 4); // value 4 at row 5, col 4

    assert_eq!(s.get_possible_moves(1 * 9 + 1).unwrap(), vec![3, 4, 5, 6, 7, 8]);
    assert_eq!(s.get_possible_moves(3 * 9 + 3).unwrap(), vec![0, 4, 5, 6, 7, 8]);
    assert_eq!(s.get_possible_moves(5 * 9 + 0).unwrap(), vec![1, 4, 5, 6, 7, 8]);
    assert!(s.count_solutions(0, 2) > 1);
}

#[test]
fn state_test_generation() {
    let values = Array2D::filled_with(0, 9, 9);
    let now = Instant::now();
    let _ = generate(&values, 42, 58);
    let elapsed = now.elapsed();
    println!("Elapsed: {:.2?}", elapsed);
}

#[test]
fn playfield_test_generation() {
    let values = Array2D::filled_with(0, 9, 9);
    let now = Instant::now();
    let _ = generate(&values, 42, 58);
    let elapsed = now.elapsed();
    println!("Elapsed: {:.2?}", elapsed);
}

#[test]
fn lib_test_generation() {
    let now = Instant::now();
    let values = Array2D::filled_with(0, 9, 9);
    {
        for _ in 0..50 {
            let _ = generate(&values, rand::random(), 55);
        }
    }

    let elapsed = now.elapsed();
    println!("Elapsed: {:.2?}", elapsed);
}

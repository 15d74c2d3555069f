//! The engine's call surface: solve, generate, count solutions, hint.
//!
//! Every call builds its own board from the caller's grid, works on it,
//! and hands plain grid data back; no state survives between calls.

use vstd::prelude::*;

use crate::SudokuError;
use crate::board::Sudoku;
use crate::generator::{generate_sequence, reduced_by};
use crate::grid::{grid_cols, grid_rows, grid_seq};
use crate::model::{
    grid_ok, is_solution_of, lemma_zeros_bounds, lemma_zeros_complete, nullable_upto, strength_of,
    zeros, zeros_upto,
};
use crate::search::{count_at, lemma_count_at_bounds, lemma_count_pos};
use crate::shuffle::shuffle_random;

verus! {

/// What counting owes the caller: 0 for a grid with a conflict, otherwise
/// the bounded count held to the cap.
pub open spec fn solutions_capped(g: Seq<u8>, limit: int) -> int {
    if !grid_ok(g) {
        0
    } else if count_at(g, 0, limit) > limit {
        limit
    } else {
        count_at(g, 0, limit)
    }
}

/// The outcome generation owes the caller, composed from the mirrors of
/// its stages: validation, the seed-shuffled solve, the weakest-clue
/// removal order over the shuffled nullable cells, and the removal walk.
/// It depends on the grid, the seed and the difficulty alone, so
/// generation is deterministic.
pub open spec fn generate_spec(g: Seq<u8>, seed: u64, difficulty: u8) -> Result<
    (Seq<u8>, Seq<u8>),
    SudokuError,
> {
    if difficulty > 58 {
        Err(SudokuError::InvalidDifficulty)
    } else if zeros(g) < difficulty as int {
        Err(SudokuError::InvalidDifficulty)
    } else if !grid_ok(g) {
        Err(SudokuError::Conflict)
    } else {
        match crate::search::srand_at(g, 0, seed) {
            None => Err(SudokuError::NoSolution),
            Some(sol) => {
                let order = crate::generator::removal_order(
                    sol,
                    crate::shuffle::shuffled(nullable_upto(g, 81), seed),
                );
                match crate::generator::removal_search(sol, order, 0, 0, difficulty as int) {
                    None => Err(SudokuError::Generation),
                    Some(clues) => Ok((clues, sol)),
                }
            },
        }
    }
}

/// Solves a Sudoku grid: the given values are kept, every other cell is
/// filled so that each row, column and box holds each digit once. With a
/// seed, the completion is searched in seed-shuffled order, so different
/// seeds can produce different completions of an under-constrained grid;
/// without one, digits are tried in ascending order.
pub fn solve(values: &array2d::Array2D<u8>, seed_option: Option<u64>) -> (r: Result<
    array2d::Array2D<u8>,
    SudokuError,
>)
    requires
        grid_rows(*values) == 9,
        grid_cols(*values) == 9,
    ensures
        ({
            let g = grid_seq(*values);
            &&& (r == Result::<array2d::Array2D<u8>, SudokuError>::Err(SudokuError::Conflict)
                <==> !grid_ok(g))
            &&& (r == Result::<array2d::Array2D<u8>, SudokuError>::Err(SudokuError::NoSolution)
                <==> grid_ok(g) && !(exists|s: Seq<u8>| is_solution_of(s, g)))
            &&& (r is Ok <==> grid_ok(g) && (exists|s: Seq<u8>| is_solution_of(s, g)))
            &&& (r matches Ok(sol) ==> is_solution_of(grid_seq(sol), g) && grid_rows(sol) == 9
                && grid_cols(sol) == 9)
        }),
{
    match Sudoku::new(Some(values)) {
        Err(_) => Err(SudokuError::Conflict),
        Ok(mut s) => {
            let found = match seed_option {
                Some(seed) => s.solve_random(0, seed),
                None => s.solve(0),
            };
            if found {
                proof {
                    crate::board::lemma_wf_facts(s);
                    assert(is_solution_of(s.grid(), grid_seq(*values)));
                }
                Ok(s.into_values())
            } else {
                Err(SudokuError::NoSolution)
            }
        },
    }
}

/// Counts completions of the grid, up to a maximum of `limit`. A grid
/// that violates a row, column or box constraint counts 0 rather than
/// failing.
pub fn count_solutions(values: &array2d::Array2D<u8>, limit: u8) -> (n: u8)
    requires
        grid_rows(*values) == 9,
        grid_cols(*values) == 9,
    ensures
        n as int == solutions_capped(grid_seq(*values), limit as int),
{
    match Sudoku::new(Some(values)) {
        Err(_) => 0,
        Ok(mut s) => {
            let n = s.count_solutions(0, limit);
            proof {
                lemma_count_at_bounds(grid_seq(*values), 0, limit as int);
            }
            if n > limit {
                limit
            } else {
                n
            }
        },
    }
}

/// Generates a puzzle of the requested difficulty (number of blank
/// cells, at most 58) with a unique solution. The non-zero cells of the
/// given grid are preserved; the result pairs the clue grid with its full
/// solution.
pub fn generate(values: &array2d::Array2D<u8>, seed: u64, difficulty: u8) -> (r: Result<
    (array2d::Array2D<u8>, array2d::Array2D<u8>),
    SudokuError,
>)
    requires
        grid_rows(*values) == 9,
        grid_cols(*values) == 9,
    ensures
        ({
            let g = grid_seq(*values);
            &&& (r == Result::<(array2d::Array2D<u8>, array2d::Array2D<u8>), SudokuError>::Err(
                SudokuError::InvalidDifficulty,
            ) <==> (difficulty > 58 || zeros(g) < difficulty as int))
            &&& (r == Result::<(array2d::Array2D<u8>, array2d::Array2D<u8>), SudokuError>::Err(
                SudokuError::Conflict,
            ) <==> (difficulty <= 58 && zeros(g) >= difficulty as int && !grid_ok(g)))
            &&& (r == Result::<(array2d::Array2D<u8>, array2d::Array2D<u8>), SudokuError>::Err(
                SudokuError::NoSolution,
            ) <==> (difficulty <= 58 && zeros(g) >= difficulty as int && grid_ok(g) && !(exists|
                s: Seq<u8>,
            | is_solution_of(s, g))))
            &&& (r == Result::<(array2d::Array2D<u8>, array2d::Array2D<u8>), SudokuError>::Err(
                SudokuError::Generation,
            ) ==> (difficulty <= 58 && zeros(g) >= difficulty as int && grid_ok(g) && (exists|
                s: Seq<u8>,
            | is_solution_of(s, g))))
            &&& (r matches Ok(pair) ==> ({
                let clues = grid_seq(pair.0);
                let solution = grid_seq(pair.1);
                &&& is_solution_of(solution, g)
                &&& grid_ok(clues)
                &&& zeros(clues) == difficulty as int
                &&& (forall|j: int| 0 <= j < 81 && #[trigger] clues[j] != 0 ==> clues[j]
                    == solution[j])
                &&& (forall|j: int| 0 <= j < 81 && #[trigger] g[j] != 0 ==> clues[j] == g[j])
                &&& count_at(clues, 0, 2) == 1
                &&& grid_rows(pair.0) == 9 && grid_cols(pair.0) == 9
                &&& grid_rows(pair.1) == 9 && grid_cols(pair.1) == 9
            }))
            &&& (match r {
                Ok(pair) => generate_spec(g, seed, difficulty) == Ok::<_, SudokuError>(
                    (grid_seq(pair.0), grid_seq(pair.1)),
                ),
                Err(e) => generate_spec(g, seed, difficulty) == Err::<(Seq<u8>, Seq<u8>), _>(e),
            })
        }),
{
    let ghost g = grid_seq(*values);
    if difficulty > 58 {
        return Err(SudokuError::InvalidDifficulty);
    }
    let n = crate::grid::grid_len(values);
    assert(n == 81);
    // The nullable cells: those empty in the input grid, in row-major order.
    let mut nullable_fields: Vec<usize> = Vec::new();
    let mut k: usize = 0;
    while k < 81
        invariant
            k <= 81,
            g == grid_seq(*values),
            g.len() == 81,
            grid_rows(*values) == 9,
            grid_cols(*values) == 9,
            nullable_fields@ == nullable_upto(g, k as int),
            nullable_fields@.len() == zeros_upto(g, k as int),
            forall|t: int|
                0 <= t < nullable_fields@.len() ==> #[trigger] nullable_fields@[t] < k,
            forall|t: int|
                0 <= t < nullable_fields@.len() ==> g[#[trigger] nullable_fields@[t] as int] == 0,
            forall|a: int, b: int|
                0 <= a < b < nullable_fields@.len() ==> nullable_fields@[a] < nullable_fields@[b],
            forall|j: int|
                0 <= j < k && g[j] == 0 ==> nullable_fields@.contains(j as usize),
        decreases 81 - k,
    {
        let r = k / 9;
        let c = k % 9;
        assert(r < 9 && c < 9 && r * 9 + c == k);
        let value = crate::grid::grid_get(values, r, c);
        if value == 0 {
            let ghost before = nullable_fields@;
            nullable_fields.push(k);
            proof {
                assert(nullable_fields@ =~= nullable_upto(g, k as int + 1));
                assert(nullable_fields@[before.len() as int] == k);
                assert forall|j: int|
                    0 <= j < k + 1 && g[j] == 0 implies nullable_fields@.contains(j as usize) by {
                    if j < k {
                        let t = choose|t: int| 0 <= t < before.len() && before[t] == j as usize;
                        assert(nullable_fields@[t] == j as usize);
                    }
                }
            }
        }
        k = k + 1;
    }
    if nullable_fields.len() < difficulty as usize {
        return Err(SudokuError::InvalidDifficulty);
    }
    assert(zeros(g) >= difficulty as int);
    let board_result = Sudoku::new(Some(values));
    match board_result {
        Err(_) => Err(SudokuError::Conflict),
        Ok(mut s) => {
            let found = s.solve_random(0, seed);
            if !found {
                return Err(SudokuError::NoSolution);
            }
            proof {
                crate::board::lemma_wf_facts(s);
            }
            let solution = s.clone_values();
            let ghost sol_g = grid_seq(solution);
            proof {
                assert(is_solution_of(sol_g, g));
            }
            let ghost nf = nullable_fields@;
            let fields_sequence = generate_sequence(&solution, seed, nullable_fields);
            let ghost order = fields_sequence@;
            proof {
                broadcast use vstd::seq_lib::group_to_multiset_ensures;

                assert forall|t: int| 0 <= t < order.len() implies g[#[trigger] order[
                t] as int] == 0 by {
                    assert(order.contains(order[t]));
                    assert(order.to_multiset().count(order[t]) > 0);
                    assert(nf.to_multiset().count(order[t]) > 0);
                    assert(nf.contains(order[t]));
                    let b = choose|b: int| 0 <= b < nf.len() && nf[b] == order[t];
                }
            }
            let board2_result = Sudoku::new(Some(&solution));
            match board2_result {
                Err(_) => Err(SudokuError::Generation),  // cannot happen: the solution is conflict-free
                Ok(mut s2) => {
                    proof {
                        lemma_zeros_complete(sol_g, 81);
                        assert forall|t: int|
                            0 <= t < order.len() implies s2.grid()[#[trigger] order[t] as int]
                            != 0 by {
                            assert(1 <= sol_g[order[t] as int] <= 9);
                        }
                    }
                    let ok = s2.generate_rec(&fields_sequence, 0, 0, difficulty);
                    if !ok {
                        return Err(SudokuError::Generation);
                    }
                    proof {
                        crate::board::lemma_wf_facts(s2);
                    }
                    let clues = s2.into_values();
                    proof {
                        let cg = grid_seq(clues);
                        assert(reduced_by(cg, sol_g, order, 0));
                        assert forall|j: int| 0 <= j < 81 && #[trigger] cg[j] != 0 implies cg[j]
                            == sol_g[j] by {}
                        assert(is_solution_of(sol_g, cg));
                        lemma_count_pos(cg, sol_g, 0, 2);
                        assert forall|j: int| 0 <= j < 81 && #[trigger] g[j] != 0 implies cg[j]
                            == g[j] by {
                            if cg[j] != sol_g[j] {
                                let t = choose|t: int| 0 <= t < order.len() && order[t] == j;
                                assert(g[order[t] as int] == 0);
                            }
                            assert(sol_g[j] == g[j]);
                        }
                    }
                    Ok((clues, solution))
                },
            }
        },
    }
}

/// Picks the most constrained empty cell as the hint to reveal: among
/// the empty cells, one at which the fewest digits are legal, ties broken
/// at random. Returns the cell's row and column.
pub fn hint(values: &array2d::Array2D<u8>) -> (r: Result<(usize, usize), SudokuError>)
    requires
        grid_rows(*values) == 9,
        grid_cols(*values) == 9,
    ensures
        ({
            let g = grid_seq(*values);
            &&& (r == Result::<(usize, usize), SudokuError>::Err(SudokuError::Conflict)
                <==> !grid_ok(g))
            &&& (r == Result::<(usize, usize), SudokuError>::Err(SudokuError::NoHint)
                <==> grid_ok(g) && zeros(g) == 0)
            &&& (r is Ok <==> grid_ok(g) && zeros(g) > 0)
            &&& (r matches Ok(rc) ==> ({
                let i = rc.0 * 9 + rc.1;
                &&& rc.0 < 9
                &&& rc.1 < 9
                &&& g[i as int] == 0
                &&& forall|j: int|
                    0 <= j < 81 && g[j] == 0 ==> strength_of(g, j) >= strength_of(g, i as int)
            }))
        }),
{
    let ghost g = grid_seq(*values);
    match Sudoku::new(Some(values)) {
        Err(_) => Err(SudokuError::Conflict),
        Ok(s) => {
            let n = crate::grid::grid_len(values);
            assert(n == 81);
            // The empty cells, in row-major order.
            let mut fields: Vec<usize> = Vec::new();
            let mut k: usize = 0;
            while k < 81
                invariant
                    k <= 81,
                    s.wf(),
                    g == grid_seq(*values),
                    g == s.grid(),
                    g.len() == 81,
                    fields@.len() == zeros_upto(g, k as int),
                    forall|t: int| 0 <= t < fields@.len() ==> #[trigger] fields@[t] < 81,
                    forall|t: int|
                        0 <= t < fields@.len() ==> g[#[trigger] fields@[t] as int] == 0,
                    forall|j: int| 0 <= j < k && g[j] == 0 ==> fields@.contains(j as usize),
                decreases 81 - k,
            {
                let value = s.get_value(k);
                if value == 0 {
                    let ghost before = fields@;
                    fields.push(k);
                    proof {
                        assert(fields@[before.len() as int] == k);
                        assert forall|j: int|
                            0 <= j < k + 1 && g[j] == 0 implies fields@.contains(j as usize) by {
                            if j < k {
                                let t = choose|t: int|
                                    0 <= t < before.len() && before[t] == j as usize;
                                assert(fields@[t] == j as usize);
                            }
                        }
                    }
                }
                k = k + 1;
            }
            let ghost pre = fields@;
            shuffle_random(&mut fields);
            proof {
                broadcast use vstd::seq_lib::group_to_multiset_ensures;

                lemma_zeros_bounds(g, 81);
                assert forall|t: int| 0 <= t < fields@.len() implies #[trigger] fields@[t] < 81
                    && g[fields@[t] as int] == 0 by {
                    assert(fields@.contains(fields@[t]));
                    assert(fields@.to_multiset().count(fields@[t]) > 0);
                    assert(pre.to_multiset().count(fields@[t]) > 0);
                    assert(pre.contains(fields@[t]));
                    let b = choose|b: int| 0 <= b < pre.len() && pre[b] == fields@[t];
                }
                assert forall|j: int| 0 <= j < 81 && g[j] == 0 implies fields@.contains(
                    j as usize,
                ) by {
                    assert(pre.contains(j as usize));
                    assert(pre.to_multiset().count(j as usize) > 0);
                    assert(fields@.to_multiset().count(j as usize) > 0);
                }
            }
            if fields.len() == 0 {
                return Err(SudokuError::NoHint);
            }
            let idx = s.get_weakest_clue_idx_in(&fields);
            let cell = fields[idx];
            let row = cell / 9;
            let col = cell % 9;
            assert(row < 9 && col < 9 && row * 9 + col == cell);
            proof {
                assert forall|j: int|
                    0 <= j < 81 && g[j] == 0 implies strength_of(g, j) >= strength_of(
                    g,
                    cell as int,
                ) by {
                    assert(fields@.contains(j as usize));
                    let t = choose|t: int| 0 <= t < fields@.len() && fields@[t] == j as usize;
                    assert(strength_of(g, fields@[t] as int) >= strength_of(
                        g,
                        fields@[idx as int] as int,
                    ));
                }
            }
            Ok((row, col))
        },
    }
}

} // verus!

//! Engine-wide laws: facts that relate several operations, stated once
//! over the same specifications the operations' contracts use.

use vstd::prelude::*;

use crate::SudokuError;
use crate::engine::{generate_spec, solutions_capped};
use crate::model::{complete, consistent, grid_ok, is_solution_of};
use crate::search::{count_at, lemma_count_at_bounds, lemma_count_complete};

verus! {

/// A complete grid with no row, column or box conflict has exactly one
/// completion, itself: counting its solutions up to any positive cap
/// yields exactly 1.
pub proof fn law_complete_grid_counts_one(g: Seq<u8>, limit: int)
    requires
        complete(g),
        consistent(g),
        limit >= 1,
    ensures
        solutions_capped(g, limit) == 1,
{
    lemma_count_complete(g, 0, limit);
    assert(grid_ok(g));
}

/// What generation promises in the vocabulary of counting: a clue grid
/// whose bounded count at cap 2 is exactly 1 is reported as uniquely
/// solvable by the counting operation.
pub proof fn law_generated_unique(clues: Seq<u8>)
    requires
        grid_ok(clues),
        count_at(clues, 0, 2) == 1,
    ensures
        solutions_capped(clues, 2) == 1,
{
}

/// Nine mutually constraining cells with pairwise distinct digits hold
/// every digit 1..=9: there are only nine to go around.
proof fn lemma_unit_holds_digit(g: Seq<u8>, cells: Seq<int>, d: u8)
    requires
        complete(g),
        cells.len() == 9,
        forall|a: int| 0 <= a < 9 ==> 0 <= #[trigger] cells[a] < 81,
        forall|a: int, b: int| 0 <= a < b < 9 ==> g[#[trigger] cells[a]] != g[#[trigger] cells[b]],
        1 <= d <= 9,
    ensures
        exists|a: int| 0 <= a < 9 && g[#[trigger] cells[a]] == d,
{
    broadcast use vstd::seq_lib::seq_to_set_is_finite;
    broadcast use vstd::set::group_set_axioms;

    let vals = Seq::new(9, |a: int| g[cells[a]]);
    assert(vals.no_duplicates());
    vals.unique_seq_to_set();
    let digit_list = seq![1u8, 2u8, 3u8, 4u8, 5u8, 6u8, 7u8, 8u8, 9u8];
    let digits = digit_list.to_set();
    assert(digit_list.no_duplicates());
    digit_list.unique_seq_to_set();
    assert forall|v: u8| vals.to_set().contains(v) implies digits.contains(v) by {
        let a = choose|a: int| 0 <= a < vals.len() && vals[a] == v;
        assert(1 <= v <= 9);
        assert(digit_list[v as int - 1] == v);
        assert(digit_list.contains(v));
    }
    vstd::set_lib::lemma_subset_equality(vals.to_set(), digits);
    assert(digit_list[d as int - 1] == d);
    assert(digits.contains(d));
    assert(vals.to_set().contains(d));
    assert(vals.contains(d));
    let a = choose|a: int| 0 <= a < vals.len() && vals[a] == d;
    assert(g[cells[a]] == d);
}

/// In a solved grid every row, every column and every box is a
/// permutation of the digits 1..=9: each digit appears in each unit.
/// Together with `complete` and `consistent`, which a solver's contract
/// states of its output, each unit holds each digit exactly once.
pub proof fn law_solved_units_are_permutations(g: Seq<u8>)
    requires
        complete(g),
        consistent(g),
    ensures
        forall|u: int, d: u8|
            0 <= u < 9 && 1 <= d <= 9 ==> !#[trigger] crate::model::row_free(g, u, d),
        forall|u: int, d: u8|
            0 <= u < 9 && 1 <= d <= 9 ==> !#[trigger] crate::model::col_free(g, u, d),
        forall|u: int, d: u8|
            0 <= u < 9 && 1 <= d <= 9 ==> !#[trigger] crate::model::box_free(g, u, d),
{
    assert forall|u: int, d: u8| 0 <= u < 9 && 1 <= d <= 9 implies !#[trigger] crate::model::row_free(
        g,
        u,
        d,
    ) by {
        let cells = Seq::new(9, |c: int| u * 9 + c);
        assert forall|a: int, b: int| 0 <= a < b < 9 implies g[#[trigger] cells[a]]
            != g[#[trigger] cells[b]] by {
            assert(crate::model::row_of(cells[a]) == u && crate::model::row_of(cells[b]) == u);
            assert(crate::model::sees(cells[a], cells[b]));
        }
        lemma_unit_holds_digit(g, cells, d);
        let a = choose|a: int| 0 <= a < 9 && g[#[trigger] cells[a]] == d;
        assert(crate::model::row_of(cells[a]) == u);
    }
    assert forall|u: int, d: u8| 0 <= u < 9 && 1 <= d <= 9 implies !#[trigger] crate::model::col_free(
        g,
        u,
        d,
    ) by {
        let cells = Seq::new(9, |r: int| r * 9 + u);
        assert forall|a: int, b: int| 0 <= a < b < 9 implies g[#[trigger] cells[a]]
            != g[#[trigger] cells[b]] by {
            assert(crate::model::col_of(cells[a]) == u && crate::model::col_of(cells[b]) == u);
            assert(crate::model::sees(cells[a], cells[b]));
        }
        lemma_unit_holds_digit(g, cells, d);
        let a = choose|a: int| 0 <= a < 9 && g[#[trigger] cells[a]] == d;
        assert(crate::model::col_of(cells[a]) == u);
    }
    assert forall|u: int, d: u8| 0 <= u < 9 && 1 <= d <= 9 implies !#[trigger] crate::model::box_free(
        g,
        u,
        d,
    ) by {
        let cells = Seq::new(9, |t: int| (3 * (u / 3) + t / 3) * 9 + 3 * (u % 3) + t % 3);
        assert forall|a: int| 0 <= a < 9 implies 0 <= #[trigger] cells[a] < 81
            && crate::model::box_of(cells[a]) == u by {
            let rr = 3 * (u / 3) + a / 3;
            let cc = 3 * (u % 3) + a % 3;
            assert(cells[a] == rr * 9 + cc);
            assert(0 <= rr < 9 && 0 <= cc < 9);
            assert(crate::model::row_of(cells[a]) == rr);
            assert(crate::model::col_of(cells[a]) == cc);
            assert(rr / 3 == u / 3 && cc / 3 == u % 3);
        }
        assert forall|a: int, b: int| 0 <= a < b < 9 implies g[#[trigger] cells[a]]
            != g[#[trigger] cells[b]] by {
            assert(cells[a] != cells[b]) by {
                let ra = 3 * (u / 3) + a / 3;
                let ca = 3 * (u % 3) + a % 3;
                let rb = 3 * (u / 3) + b / 3;
                let cb = 3 * (u % 3) + b % 3;
                assert(cells[a] == ra * 9 + ca && cells[b] == rb * 9 + cb);
                assert(a / 3 != b / 3 || a % 3 != b % 3);
            }
            assert(crate::model::box_of(cells[a]) == u && crate::model::box_of(cells[b]) == u);
            assert(crate::model::sees(cells[a], cells[b]));
        }
        lemma_unit_holds_digit(g, cells, d);
        let a = choose|a: int| 0 <= a < 9 && g[#[trigger] cells[a]] == d;
        assert(crate::model::box_of(cells[a]) == u);
    }
}

/// The value the shifted diagonal pattern puts at cell `i`: sliding each
/// band row by three and each row within a band by one gives a full grid
/// that satisfies every Sudoku constraint, for any shift.
spec fn pattern_at(shift: int, i: int) -> u8 {
    (((3 * (crate::model::row_of(i) % 3) + crate::model::row_of(i) / 3 + crate::model::col_of(i)
        + shift) % 9) + 1) as u8
}

/// A full grid built from the shifted diagonal pattern.
spec fn pattern_grid(shift: int) -> Seq<u8> {
    Seq::new(81, |i: int| pattern_at(shift, i))
}

/// Adding distinct values below 9 to a common offset stays distinct
/// modulo 9.
proof fn lemma_mod9_offset_inj(k: int, a: int, b: int)
    requires
        k >= 0,
        0 <= a < 9,
        0 <= b < 9,
        a != b,
    ensures
        (k + a) % 9 != (k + b) % 9,
{
    if (k + a) % 9 == (k + b) % 9 {
        assert(k + a == 9 * ((k + a) / 9) + (k + a) % 9);
        assert(k + b == 9 * ((k + b) / 9) + (k + b) % 9);
        let dq = (k + a) / 9 - (k + b) / 9;
        assert(a - b == 9 * dq);
        assert(dq == 0);
        assert(false);
    }
}

/// The shifted diagonal pattern is a solution of the empty grid.
proof fn lemma_pattern_is_solution(shift: int)
    requires
        shift >= 0,
    ensures
        is_solution_of(pattern_grid(shift), crate::model::empty_grid()),
{
    let g = pattern_grid(shift);
    assert forall|i: int| 0 <= i < 81 implies 1 <= #[trigger] g[i] <= 9 by {
        assert(0 <= (3 * (crate::model::row_of(i) % 3) + crate::model::row_of(i) / 3
            + crate::model::col_of(i) + shift) % 9 < 9);
    }
    assert forall|i: int, j: int|
        0 <= i < 81 && 0 <= j < 81 && i != j && crate::model::sees(i, j) && #[trigger] g[i]
            != 0 implies #[trigger] g[j] != g[i] by {
        let ri = crate::model::row_of(i);
        let ci = crate::model::col_of(i);
        let rj = crate::model::row_of(j);
        let cj = crate::model::col_of(j);
        assert(i == ri * 9 + ci && j == rj * 9 + cj);
        assert(0 <= (3 * (ri % 3) + ri / 3 + ci + shift) % 9 < 9);
        assert(0 <= (3 * (rj % 3) + rj / 3 + cj + shift) % 9 < 9);
        if ri == rj {
            assert(ci != cj);
            lemma_mod9_offset_inj(3 * (ri % 3) + ri / 3 + shift, ci, cj);
            assert((3 * (ri % 3) + ri / 3 + shift + ci) % 9 != (3 * (rj % 3) + rj / 3 + shift
                + cj) % 9);
        } else if ci == cj {
            let a = 3 * (ri % 3) + ri / 3;
            let b = 3 * (rj % 3) + rj / 3;
            assert(a != b) by {
                if a == b {
                    assert(a / 3 == ri % 3 && a % 3 == ri / 3);
                    assert(b / 3 == rj % 3 && b % 3 == rj / 3);
                    assert(ri == 3 * (ri / 3) + ri % 3 && rj == 3 * (rj / 3) + rj % 3);
                    assert(false);
                }
            }
            lemma_mod9_offset_inj(ci + shift, a, b);
            assert((ci + shift + a) % 9 != (cj + shift + b) % 9);
        } else {
            assert(crate::model::box_of(i) == crate::model::box_of(j));
            assert(ri / 3 == rj / 3 && ci / 3 == cj / 3);
            let ni = 3 * (ri % 3) + ci % 3;
            let nj = 3 * (rj % 3) + cj % 3;
            assert(ni != nj) by {
                if ni == nj {
                    assert(ni / 3 == ri % 3 && ni % 3 == ci % 3);
                    assert(nj / 3 == rj % 3 && nj % 3 == cj % 3);
                    assert(ri == 3 * (ri / 3) + ri % 3 && rj == 3 * (rj / 3) + rj % 3);
                    assert(ci == 3 * (ci / 3) + ci % 3 && cj == 3 * (cj / 3) + cj % 3);
                    assert(false);
                }
            }
            lemma_mod9_offset_inj(ri / 3 + 3 * (ci / 3) + shift, ni, nj);
            assert(3 * (ri % 3) + ri / 3 + ci + shift == ri / 3 + 3 * (ci / 3) + shift + ni);
            assert(3 * (rj % 3) + rj / 3 + cj + shift == rj / 3 + 3 * (cj / 3) + shift + nj);
        }
    }
    assert(complete(g));
    assert(consistent(g));
}

/// A grid with no clues at all is under-constrained: counting its
/// solutions up to 2 reaches the cap.
pub proof fn law_unconstrained_grid_ambiguous()
    ensures
        solutions_capped(crate::model::empty_grid(), 2) == 2,
{
    let e = crate::model::empty_grid();
    lemma_pattern_is_solution(0);
    lemma_pattern_is_solution(1);
    let p0 = pattern_grid(0);
    let p1 = pattern_grid(1);
    assert(p0[0] == 1 && p1[0] == 2);
    assert(e.len() == 81 && p0[0] != p1[0]);
    crate::search::lemma_count_two(e, p0, p1, 0, 2);
    lemma_count_at_bounds(e, 0, 2);
    assert(grid_ok(e));
}

/// Generation is deterministic: the outcome it is pinned to depends on
/// the grid, the seed and the difficulty alone, so two calls with
/// identical arguments yield identical results.
pub proof fn law_generate_deterministic(
    g: Seq<u8>,
    seed: u64,
    difficulty: u8,
    r1: Result<(Seq<u8>, Seq<u8>), SudokuError>,
    r2: Result<(Seq<u8>, Seq<u8>), SudokuError>,
)
    requires
        r1 == generate_spec(g, seed, difficulty),
        r2 == generate_spec(g, seed, difficulty),
    ensures
        r1 == r2,
{
}

} // verus!

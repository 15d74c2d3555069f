//! Mathematical model of a Sudoku grid.
//!
//! A grid is a sequence of 81 digits in row-major order; `0` marks an empty
//! cell. Cells are addressed by a flat index `i` in `0..81`, from which the
//! row, column and 3x3 box follow arithmetically.

use vstd::prelude::*;

verus! {

pub open spec fn row_of(i: int) -> int {
    i / 9
}

pub open spec fn col_of(i: int) -> int {
    i % 9
}

pub open spec fn box_of(i: int) -> int {
    3 * (row_of(i) / 3) + col_of(i) / 3
}

/// Two cells constrain each other iff they share a row, a column or a box.
pub open spec fn sees(i: int, j: int) -> bool {
    row_of(i) == row_of(j) || col_of(i) == col_of(j) || box_of(i) == box_of(j)
}

/// The shape every input grid must have: 81 cells, each holding 0..=9.
pub open spec fn grid_shaped(g: Seq<u8>) -> bool {
    g.len() == 81 && (forall|i: int| 0 <= i < 81 ==> g[i] <= 9)
}

/// No two distinct cells of the same row, column or box hold the same
/// non-zero digit.
pub open spec fn consistent(g: Seq<u8>) -> bool {
    forall|i: int, j: int|
        0 <= i < 81 && 0 <= j < 81 && i != j && sees(i, j) && #[trigger] g[i] != 0 ==> #[trigger] g[j]
            != g[i]
}

/// A well-formed, conflict-free grid: the inputs on which the engine owes
/// an answer.
pub open spec fn grid_ok(g: Seq<u8>) -> bool {
    grid_shaped(g) && consistent(g)
}

/// Every cell holds a digit 1..=9.
pub open spec fn complete(g: Seq<u8>) -> bool {
    g.len() == 81 && (forall|i: int| 0 <= i < 81 ==> 1 <= #[trigger] g[i] <= 9)
}

/// `s` keeps every non-zero cell of `g`.
pub open spec fn extends(s: Seq<u8>, g: Seq<u8>) -> bool {
    forall|i: int| 0 <= i < 81 && #[trigger] g[i] != 0 ==> s[i] == g[i]
}

/// A complete, conflict-free grid that keeps every clue of `g`.
pub open spec fn is_solution_of(s: Seq<u8>, g: Seq<u8>) -> bool {
    complete(s) && consistent(s) && extends(s, g)
}

/// Digit `d` appears nowhere in row `u`.
pub open spec fn row_free(g: Seq<u8>, u: int, d: u8) -> bool {
    forall|j: int| 0 <= j < 81 && row_of(j) == u ==> #[trigger] g[j] != d
}

/// Digit `d` appears nowhere in column `u`.
pub open spec fn col_free(g: Seq<u8>, u: int, d: u8) -> bool {
    forall|j: int| 0 <= j < 81 && col_of(j) == u ==> #[trigger] g[j] != d
}

/// Digit `d` appears nowhere in box `u`.
pub open spec fn box_free(g: Seq<u8>, u: int, d: u8) -> bool {
    forall|j: int| 0 <= j < 81 && box_of(j) == u ==> #[trigger] g[j] != d
}

/// Digit `d` may legally be placed at cell `i`: no cell that `i` sees
/// holds it.
pub open spec fn avail(g: Seq<u8>, i: int, d: u8) -> bool {
    row_free(g, row_of(i), d) && col_free(g, col_of(i), d) && box_free(g, box_of(i), d)
}

/// The legal digits at cell `i`, as zero-based values in ascending order,
/// restricted to digits at most `d`.
pub open spec fn moves_upto(g: Seq<u8>, i: int, d: int) -> Seq<usize>
    decreases d,
{
    if d <= 0 {
        Seq::empty()
    } else if avail(g, i, d as u8) {
        moves_upto(g, i, d - 1) + seq![(d - 1) as usize]
    } else {
        moves_upto(g, i, d - 1)
    }
}

/// The legal digits at cell `i`, zero-based, ascending.
pub open spec fn moves_list(g: Seq<u8>, i: int) -> Seq<usize> {
    moves_upto(g, i, 9)
}

/// The strength of a cell: how many digits would be legal there if the cell
/// were empty. For an empty cell this is the number of legal moves; for a
/// filled cell, the number of legal replacements including its own digit.
pub open spec fn strength_of(g: Seq<u8>, i: int) -> int {
    moves_list(g.update(i, 0u8), i).len() as int
}

/// The number of empty cells among the first `k`.
pub open spec fn zeros_upto(g: Seq<u8>, k: int) -> int
    decreases k,
{
    if k <= 0 {
        0
    } else {
        zeros_upto(g, k - 1) + if g[k - 1] == 0 {
            1int
        } else {
            0int
        }
    }
}

/// The number of empty cells of the grid.
pub open spec fn zeros(g: Seq<u8>) -> int {
    zeros_upto(g, 81)
}

/// The grid whose first `k` cells are those of `g` and whose rest are empty.
pub open spec fn prefix_grid(g: Seq<u8>, k: int) -> Seq<u8> {
    Seq::new(81, |i: int| if i < k { g[i] } else { 0u8 })
}

/// The all-empty grid.
pub open spec fn empty_grid() -> Seq<u8> {
    Seq::new(81, |i: int| 0u8)
}

/// The index of the first cell of minimal strength among the first `k`
/// entries of `fs`.
pub open spec fn weakest_upto(g: Seq<u8>, fs: Seq<usize>, k: int) -> int
    decreases k,
{
    if k <= 1 {
        0
    } else {
        let prev = weakest_upto(g, fs, k - 1);
        if strength_of(g, fs[k - 1] as int) < strength_of(g, fs[prev] as int) {
            k - 1
        } else {
            prev
        }
    }
}

/// The first-minimum index is always in range.
pub proof fn lemma_weakest_bounds(g: Seq<u8>, fs: Seq<usize>, k: int)
    requires
        k >= 1,
    ensures
        0 <= weakest_upto(g, fs, k) < k,
    decreases k,
{
    if k > 1 {
        lemma_weakest_bounds(g, fs, k - 1);
    }
}

/// The empty cells among the first `k`, in ascending order.
pub open spec fn nullable_upto(g: Seq<u8>, k: int) -> Seq<usize>
    decreases k,
{
    if k <= 0 {
        Seq::empty()
    } else if g[k - 1] == 0 {
        nullable_upto(g, k - 1) + seq![(k - 1) as usize]
    } else {
        nullable_upto(g, k - 1)
    }
}

/// A move list never holds more entries than digits considered.
pub proof fn lemma_moves_len(g: Seq<u8>, i: int, d: int)
    requires
        0 <= d <= 9,
    ensures
        moves_upto(g, i, d).len() <= d,
    decreases d,
{
    if d > 0 {
        lemma_moves_len(g, i, d - 1);
    }
}

/// Strength is always between 0 and 9.
pub proof fn lemma_strength_bounds(g: Seq<u8>, i: int)
    ensures
        0 <= strength_of(g, i) <= 9,
{
    lemma_moves_len(g.update(i, 0u8), i, 9);
}

/// Elements of the move list are in range and legal; the list is strictly
/// ascending.
pub proof fn lemma_moves_elems(g: Seq<u8>, i: int, d: int)
    requires
        0 <= d <= 9,
    ensures
        forall|t: int|
            0 <= t < moves_upto(g, i, d).len() ==> #[trigger] moves_upto(g, i, d)[t] < d
                && avail(g, i, (moves_upto(g, i, d)[t] + 1) as u8),
        forall|a: int, b: int|
            0 <= a < b < moves_upto(g, i, d).len() ==> moves_upto(g, i, d)[a] < moves_upto(
                g,
                i,
                d,
            )[b],
    decreases d,
{
    if d > 0 {
        lemma_moves_elems(g, i, d - 1);
        let s = moves_upto(g, i, d);
        let s0 = moves_upto(g, i, d - 1);
        assert forall|t: int| 0 <= t < s.len() implies #[trigger] s[t] < d && avail(
            g,
            i,
            (s[t] + 1) as u8,
        ) by {
            if t < s0.len() {
                assert(s[t] == s0[t]);
            } else {
                assert(s[t] == d - 1);
            }
        }
        assert forall|a: int, b: int| 0 <= a < b < s.len() implies s[a] < s[b] by {
            if b < s0.len() {
                assert(s[a] == s0[a] && s[b] == s0[b]);
            } else {
                assert(s[b] == d - 1);
                assert(s[a] == s0[a] && s0[a] < d - 1);
            }
        }
    }
}

/// The move list holds exactly the zero-based forms of the legal digits.
pub proof fn lemma_moves_contains(g: Seq<u8>, i: int, d: int, x: usize)
    requires
        0 <= d <= 9,
    ensures
        moves_upto(g, i, d).contains(x) <==> (x < d && avail(g, i, (x + 1) as u8)),
    decreases d,
{
    if d > 0 {
        lemma_moves_contains(g, i, d - 1, x);
        let s = moves_upto(g, i, d);
        let s0 = moves_upto(g, i, d - 1);
        if x == d - 1 && avail(g, i, (x + 1) as u8) {
            assert(s[s.len() - 1] == x);
            assert(s.contains(x));
        }
        if s0.contains(x) {
            let t0 = choose|t0: int| 0 <= t0 < s0.len() && s0[t0] == x;
            assert(s[t0] == x);
            assert(s.contains(x));
        }
        if s.contains(x) {
            let t = choose|t: int| 0 <= t < s.len() && s[t] == x;
            if t < s0.len() {
                assert(s0[t] == x);
                assert(s0.contains(x));
            } else {
                assert(x == d - 1 && avail(g, i, (x + 1) as u8));
            }
        }
    }
}

/// Placing digit `d` at empty cell `i` removes exactly `d` from the free
/// digits of the units of `i`, and leaves other units untouched.
pub proof fn lemma_free_after_set(g: Seq<u8>, i: int, d: u8, u: int, e: u8)
    requires
        0 <= i < 81,
        g.len() == 81,
        g[i] == 0,
        1 <= d <= 9,
        1 <= e <= 9,
    ensures
        row_free(g.update(i, d), u, e) <==> (row_free(g, u, e) && (row_of(i) == u ==> e != d)),
        col_free(g.update(i, d), u, e) <==> (col_free(g, u, e) && (col_of(i) == u ==> e != d)),
        box_free(g.update(i, d), u, e) <==> (box_free(g, u, e) && (box_of(i) == u ==> e != d)),
{
    let g2 = g.update(i, d);
    assert(g2[i] == d);
    assert(forall|j: int| 0 <= j < 81 && j != i ==> g2[j] == #[trigger] g[j]);
}

/// Clearing cell `i`, which holds digit `d` in a conflict-free grid, makes
/// exactly `d` free again in the units of `i`, and leaves other digits and
/// units untouched.
pub proof fn lemma_free_after_clear(g: Seq<u8>, i: int, u: int, e: u8)
    requires
        0 <= i < 81,
        g.len() == 81,
        1 <= g[i] <= 9,
        consistent(g),
        1 <= e <= 9,
    ensures
        row_free(g.update(i, 0u8), u, e) <==> (row_free(g, u, e) || (row_of(i) == u && e == g[i])),
        col_free(g.update(i, 0u8), u, e) <==> (col_free(g, u, e) || (col_of(i) == u && e == g[i])),
        box_free(g.update(i, 0u8), u, e) <==> (box_free(g, u, e) || (box_of(i) == u && e == g[i])),
{
    let d = g[i];
    let g2 = g.update(i, 0u8);
    assert(g2[i] == 0);
    assert(forall|j: int| 0 <= j < 81 && j != i ==> g2[j] == #[trigger] g[j]);
    // Consistency at cell i: no other cell of a unit of i holds d.
    assert(forall|j: int| 0 <= j < 81 && j != i && sees(i, j) ==> #[trigger] g[j] != d);
}

/// Placing a legal digit keeps the grid conflict-free.
pub proof fn lemma_consistent_after_set(g: Seq<u8>, i: int, d: u8)
    requires
        0 <= i < 81,
        g.len() == 81,
        g[i] == 0,
        1 <= d <= 9,
        consistent(g),
        avail(g, i, d),
    ensures
        consistent(g.update(i, d)),
{
    let g2 = g.update(i, d);
    assert forall|a: int, b: int|
        0 <= a < 81 && 0 <= b < 81 && a != b && sees(a, b) && #[trigger] g2[a] != 0 implies #[trigger] g2[b]
        != g2[a] by {
        if a == i {
            assert(g[b] != d);
        } else if b == i {
            assert(g[a] != d);
        } else {
            assert(g2[a] == g[a] && g2[b] == g[b]);
        }
    }
}

/// Clearing a cell keeps the grid conflict-free.
pub proof fn lemma_consistent_after_clear(g: Seq<u8>, i: int)
    requires
        0 <= i < 81,
        g.len() == 81,
        consistent(g),
    ensures
        consistent(g.update(i, 0u8)),
{
    let g2 = g.update(i, 0u8);
    assert forall|a: int, b: int|
        0 <= a < 81 && 0 <= b < 81 && a != b && sees(a, b) && #[trigger] g2[a] != 0 implies #[trigger] g2[b]
        != g2[a] by {
        assert(g2[a] == g[a]);
        if b != i {
            assert(g2[b] == g[b]);
        }
    }
}

/// In a solution of `g`, the digit a solution places at an empty cell of `g`
/// is legal in `g`.
pub proof fn lemma_solution_avail(s: Seq<u8>, g: Seq<u8>, i: int)
    requires
        g.len() == 81,
        0 <= i < 81,
        g[i] == 0,
        is_solution_of(s, g),
    ensures
        avail(g, i, s[i]),
{
    let d = s[i];
    assert forall|j: int| 0 <= j < 81 && sees(i, j) implies #[trigger] g[j] != d by {
        if j == i {
        } else if g[j] != 0 {
            assert(s[j] == g[j]);
            assert(s[j] != s[i]);
        }
    }
    assert(row_free(g, row_of(i), d));
    assert(col_free(g, col_of(i), d));
    assert(box_free(g, box_of(i), d));
}

/// A solution of `g` that places `d` at cell `i` is a solution of `g` with
/// `d` placed, and the other way round.
pub proof fn lemma_solution_update(s: Seq<u8>, g: Seq<u8>, i: int, d: u8)
    requires
        g.len() == 81,
        0 <= i < 81,
        g[i] == 0,
        1 <= d <= 9,
    ensures
        is_solution_of(s, g) && s[i] == d <==> is_solution_of(s, g.update(i, d)),
{
    let g2 = g.update(i, d);
    if is_solution_of(s, g) && s[i] == d {
        assert forall|j: int| 0 <= j < 81 && #[trigger] g2[j] != 0 implies s[j] == g2[j] by {
            if j != i {
                assert(g2[j] == g[j]);
            }
        }
    }
    if is_solution_of(s, g2) {
        assert(g2[i] == d);
        assert(s[i] == d);
        assert forall|j: int| 0 <= j < 81 && #[trigger] g[j] != 0 implies s[j] == g[j] by {
            assert(g2[j] == g[j]);
        }
    }
}

/// How one update changes the count of empty cells among the first `k`.
pub proof fn lemma_zeros_update(g: Seq<u8>, i: int, v: u8, k: int)
    requires
        g.len() == 81,
        0 <= i < 81,
        0 <= k <= 81,
    ensures
        zeros_upto(g.update(i, v), k) == zeros_upto(g, k) + if i < k {
            (if v == 0 {
                1int
            } else {
                0int
            }) - (if g[i] == 0 {
                1int
            } else {
                0int
            })
        } else {
            0int
        },
    decreases k,
{
    if k > 0 {
        lemma_zeros_update(g, i, v, k - 1);
    }
}

/// A complete grid has no empty cell.
pub proof fn lemma_zeros_complete(g: Seq<u8>, k: int)
    requires
        complete(g),
        0 <= k <= 81,
    ensures
        zeros_upto(g, k) == 0,
    decreases k,
{
    if k > 0 {
        lemma_zeros_complete(g, k - 1);
    }
}

/// The count of empty cells among the first `k` lies between 0 and `k`.
pub proof fn lemma_zeros_bounds(g: Seq<u8>, k: int)
    requires
        0 <= k,
    ensures
        0 <= zeros_upto(g, k) <= k,
    decreases k,
{
    if k > 0 {
        lemma_zeros_bounds(g, k - 1);
    }
}

/// In a conflict-free grid, the digit a filled cell holds becomes legal
/// there again once the cell is cleared.
pub proof fn lemma_avail_after_clear(g: Seq<u8>, i: int)
    requires
        g.len() == 81,
        0 <= i < 81,
        1 <= g[i] <= 9,
        consistent(g),
    ensures
        avail(g.update(i, 0u8), i, g[i]),
{
    let d = g[i];
    let g2 = g.update(i, 0u8);
    assert(forall|j: int| 0 <= j < 81 && j != i && sees(i, j) ==> #[trigger] g[j] != d);
    assert forall|j: int| 0 <= j < 81 && row_of(j) == row_of(i) implies #[trigger] g2[j] != d by {
        if j != i {
            assert(g2[j] == g[j]);
        }
    }
    assert forall|j: int| 0 <= j < 81 && col_of(j) == col_of(i) implies #[trigger] g2[j] != d by {
        if j != i {
            assert(g2[j] == g[j]);
        }
    }
    assert forall|j: int| 0 <= j < 81 && box_of(j) == box_of(i) implies #[trigger] g2[j] != d by {
        if j != i {
            assert(g2[j] == g[j]);
        }
    }
}

} // verus!

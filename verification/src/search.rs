//! Backtracking search over the fixed row-major cell order.
//!
//! The three search procedures share one recursion shape: at each cursor a
//! filled cell is skipped, and an empty cell is tried with every legal
//! digit in turn, each placement undone before the next. The solution
//! count is pinned exactly by the recursive specification [`count_at`],
//! and the seeded solve by [`srand_at`]; every solver also guarantees
//! that a returned grid is a completion, that a failure means none
//! exists, and that a failed search leaves the board exactly as it was.

use vstd::prelude::*;

use crate::board::{Sudoku, same_boards};
use crate::model::{
    avail, complete, extends, is_solution_of, lemma_moves_contains, lemma_moves_elems,
    lemma_solution_avail, lemma_solution_update, moves_list,
};

verus! {

/// The number of completions of `g` found from `cursor` on, capped by
/// `limit` as the running sum crosses it: the value the bounded counting
/// search computes. A full traversal counts 1; an empty cell sums the
/// counts of its legal digits in ascending order through [`count_digits`].
pub open spec fn count_at(g: Seq<u8>, cursor: int, limit: int) -> int
    decreases 81 - cursor, 10int,
{
    if cursor >= 81 {
        1
    } else if g[cursor] != 0 {
        count_at(g, cursor + 1, limit)
    } else {
        count_digits(g, cursor, limit, 1, 0)
    }
}

/// Folds [`count_at`] over the digits `d..=9` at empty cell `cursor`,
/// adding the count of each legal digit to `sum` and returning `limit` as
/// soon as the sum reaches it.
pub open spec fn count_digits(g: Seq<u8>, cursor: int, limit: int, d: int, sum: int) -> int
    decreases 81 - cursor, 10 - d,
{
    if !(0 <= cursor < 81 && 1 <= d <= 9) {
        sum
    } else {
        let c = if avail(g, cursor, d as u8) {
            count_at(g.update(cursor, d as u8), cursor + 1, limit)
        } else {
            0
        };
        if sum + c >= limit {
            limit
        } else if d == 9 {
            sum + c
        } else {
            count_digits(g, cursor, limit, d + 1, sum + c)
        }
    }
}

/// The count is non-negative and never exceeds the cap (nor 1, when the
/// cap is 0 and the lone full traversal counts).
pub proof fn lemma_count_at_bounds(g: Seq<u8>, cursor: int, limit: int)
    requires
        limit >= 0,
    ensures
        0 <= count_at(g, cursor, limit) <= if limit == 0 {
            1int
        } else {
            limit
        },
    decreases 81 - cursor, 10int,
{
    if cursor >= 81 {
    } else if g[cursor] != 0 {
        lemma_count_at_bounds(g, cursor + 1, limit);
    } else {
        lemma_count_digits_bounds(g, cursor, limit, 1, 0);
    }
}

/// Bounds for the digit fold: from a sum within the cap it stays within
/// the cap.
pub proof fn lemma_count_digits_bounds(g: Seq<u8>, cursor: int, limit: int, d: int, sum: int)
    requires
        limit >= 0,
        0 <= sum <= limit,
    ensures
        0 <= count_digits(g, cursor, limit, d, sum) <= if limit == 0 && sum == 0 {
            0int
        } else {
            limit
        },
        count_digits(g, cursor, limit, d, sum) >= if sum < limit {
            sum
        } else {
            limit
        },
    decreases 81 - cursor, 10 - d,
{
    if !(0 <= cursor < 81 && 1 <= d <= 9) {
    } else {
        if avail(g, cursor, d as u8) {
            lemma_count_at_bounds(g.update(cursor, d as u8), cursor + 1, limit);
        }
        let c = if avail(g, cursor, d as u8) {
            count_at(g.update(cursor, d as u8), cursor + 1, limit)
        } else {
            0int
        };
        if sum + c >= limit {
        } else if d == 9 {
        } else {
            lemma_count_digits_bounds(g, cursor, limit, d + 1, sum + c);
        }
    }
}

/// A complete grid counts exactly one solution from any cursor.
pub proof fn lemma_count_complete(g: Seq<u8>, cursor: int, limit: int)
    requires
        complete(g),
        0 <= cursor,
    ensures
        count_at(g, cursor, limit) == 1,
    decreases 81 - cursor,
{
    if cursor < 81 {
        lemma_count_complete(g, cursor + 1, limit);
    }
}

/// Skipping a digit that is not legal leaves the fold unchanged.
pub proof fn lemma_count_skip(g: Seq<u8>, cursor: int, limit: int, d: int, sum: int)
    requires
        limit >= 0,
        0 <= sum <= limit,
        1 <= d <= 9,
        0 <= cursor < 81,
        !avail(g, cursor, d as u8),
    ensures
        count_digits(g, cursor, limit, d, sum) == count_digits(g, cursor, limit, d + 1, sum),
{
    if sum >= limit {
        lemma_count_digits_bounds(g, cursor, limit, d, sum);
        lemma_count_digits_bounds(g, cursor, limit, d + 1, sum);
    }
}

/// Skipping a whole range of illegal digits leaves the fold unchanged.
pub proof fn lemma_count_skip_range(
    g: Seq<u8>,
    cursor: int,
    limit: int,
    d1: int,
    d2: int,
    sum: int,
)
    requires
        limit >= 0,
        0 <= sum <= limit,
        1 <= d1 <= d2 <= 10,
        0 <= cursor < 81,
        forall|e: int| d1 <= e < d2 ==> !#[trigger] avail(g, cursor, e as u8),
    ensures
        count_digits(g, cursor, limit, d1, sum) == count_digits(g, cursor, limit, d2, sum),
    decreases d2 - d1,
{
    if d1 < d2 {
        lemma_count_skip(g, cursor, limit, d1, sum);
        lemma_count_skip_range(g, cursor, limit, d1 + 1, d2, sum);
    }
}

/// A grid with a solution counts at least one, up to any positive cap.
pub proof fn lemma_count_pos(g: Seq<u8>, s: Seq<u8>, cursor: int, limit: int)
    requires
        limit >= 1,
        g.len() == 81,
        is_solution_of(s, g),
        0 <= cursor,
    ensures
        count_at(g, cursor, limit) >= 1,
    decreases 81 - cursor,
{
    if cursor >= 81 {
    } else if g[cursor] != 0 {
        lemma_count_pos(g, s, cursor + 1, limit);
    } else {
        let d = s[cursor];
        lemma_solution_avail(s, g, cursor);
        lemma_solution_update(s, g, cursor, d);
        lemma_count_pos(g.update(cursor, d), s, cursor + 1, limit);
        lemma_count_digits_pos(g, cursor, limit, 1, 0, d as int);
    }
}

/// If some digit `e` at or past `d` is legal and leads to at least one
/// completion, the fold from `d` reaches at least 1.
pub proof fn lemma_count_digits_pos(g: Seq<u8>, cursor: int, limit: int, d: int, sum: int, e: int)
    requires
        limit >= 1,
        0 <= sum <= limit,
        1 <= d <= e <= 9,
        0 <= cursor < 81,
        avail(g, cursor, e as u8),
        count_at(g.update(cursor, e as u8), cursor + 1, limit) >= 1,
    ensures
        count_digits(g, cursor, limit, d, sum) >= 1,
    decreases e - d,
{
    let c = if avail(g, cursor, d as u8) {
        count_at(g.update(cursor, d as u8), cursor + 1, limit)
    } else {
        0int
    };
    if avail(g, cursor, d as u8) {
        lemma_count_at_bounds(g.update(cursor, d as u8), cursor + 1, limit);
    }
    if d == e {
        if sum + c >= limit {
        } else if d == 9 {
        } else {
            lemma_count_digits_bounds(g, cursor, limit, d + 1, sum + c);
        }
    } else {
        if sum + c >= limit {
        } else {
            lemma_count_digits_pos(g, cursor, limit, d + 1, sum + c, e);
        }
    }
}

/// The digit fold reaches `sum + c` (up to the cap) when some digit at or
/// past `d` is legal and leads to at least `c` completions.
pub proof fn lemma_count_digits_lower(
    g: Seq<u8>,
    cursor: int,
    limit: int,
    d: int,
    sum: int,
    e: int,
    c: int,
)
    requires
        limit >= 1,
        0 <= sum <= limit,
        1 <= d <= e <= 9,
        0 <= cursor < 81,
        c >= 0,
        avail(g, cursor, e as u8),
        count_at(g.update(cursor, e as u8), cursor + 1, limit) >= c,
    ensures
        count_digits(g, cursor, limit, d, sum) >= if sum + c < limit {
            sum + c
        } else {
            limit
        },
    decreases e - d,
{
    let cd = if avail(g, cursor, d as u8) {
        count_at(g.update(cursor, d as u8), cursor + 1, limit)
    } else {
        0int
    };
    if avail(g, cursor, d as u8) {
        lemma_count_at_bounds(g.update(cursor, d as u8), cursor + 1, limit);
    }
    if d == e {
        if sum + cd >= limit {
        } else if d == 9 {
        } else {
            lemma_count_digits_bounds(g, cursor, limit, d + 1, sum + cd);
        }
    } else {
        if sum + cd >= limit {
        } else {
            lemma_count_digits_lower(g, cursor, limit, d + 1, sum + cd, e, c);
        }
    }
}

/// Two distinct legal digits, each leading to a completion, push the fold
/// to at least two.
pub proof fn lemma_count_digits_two(
    g: Seq<u8>,
    cursor: int,
    limit: int,
    d: int,
    sum: int,
    e1: int,
    e2: int,
)
    requires
        limit >= 2,
        0 <= sum <= limit,
        1 <= d <= e1 < e2 <= 9,
        0 <= cursor < 81,
        avail(g, cursor, e1 as u8),
        avail(g, cursor, e2 as u8),
        count_at(g.update(cursor, e1 as u8), cursor + 1, limit) >= 1,
        count_at(g.update(cursor, e2 as u8), cursor + 1, limit) >= 1,
    ensures
        count_digits(g, cursor, limit, d, sum) >= if sum + 2 < limit {
            sum + 2
        } else {
            limit
        },
    decreases e1 - d,
{
    let cd = if avail(g, cursor, d as u8) {
        count_at(g.update(cursor, d as u8), cursor + 1, limit)
    } else {
        0int
    };
    if avail(g, cursor, d as u8) {
        lemma_count_at_bounds(g.update(cursor, d as u8), cursor + 1, limit);
    }
    if d == e1 {
        if sum + cd >= limit {
        } else {
            lemma_count_digits_lower(g, cursor, limit, d + 1, sum + cd, e2, 1);
        }
    } else {
        if sum + cd >= limit {
        } else {
            lemma_count_digits_two(g, cursor, limit, d + 1, sum + cd, e1, e2);
        }
    }
}

/// A grid with two distinct solutions counts at least two, up to any cap
/// of at least two.
pub proof fn lemma_count_two(g: Seq<u8>, s1: Seq<u8>, s2: Seq<u8>, cursor: int, limit: int)
    requires
        limit >= 2,
        g.len() == 81,
        0 <= cursor,
        is_solution_of(s1, g),
        is_solution_of(s2, g),
        exists|j: int| cursor <= j < 81 && s1[j] != s2[j],
    ensures
        count_at(g, cursor, limit) >= 2,
    decreases 81 - cursor,
{
    let jw = choose|j: int| cursor <= j < 81 && s1[j] != s2[j];
    if g[cursor] != 0 {
        assert(s1[cursor] == g[cursor] && s2[cursor] == g[cursor]);
        assert(jw >= cursor + 1);
        lemma_count_two(g, s1, s2, cursor + 1, limit);
    } else {
        let d1 = s1[cursor];
        let d2 = s2[cursor];
        lemma_solution_avail(s1, g, cursor);
        lemma_solution_avail(s2, g, cursor);
        if d1 == d2 {
            lemma_solution_update(s1, g, cursor, d1);
            lemma_solution_update(s2, g, cursor, d1);
            assert(jw >= cursor + 1);
            lemma_count_two(g.update(cursor, d1), s1, s2, cursor + 1, limit);
            lemma_count_digits_lower(g, cursor, limit, 1, 0, d1 as int, 2);
        } else {
            lemma_solution_update(s1, g, cursor, d1);
            lemma_solution_update(s2, g, cursor, d2);
            lemma_count_pos(g.update(cursor, d1), s1, cursor + 1, limit);
            lemma_count_pos(g.update(cursor, d2), s2, cursor + 1, limit);
            if d1 < d2 {
                lemma_count_digits_two(g, cursor, limit, 1, 0, d1 as int, d2 as int);
            } else {
                lemma_count_digits_two(g, cursor, limit, 1, 0, d2 as int, d1 as int);
            }
        }
    }
}

/// The completion the seed-shuffled search finds from `cursor` on, if
/// any: the value [`Sudoku::solve_random`] computes. At every empty cell
/// the candidate order is the cell's move list as a generator freshly
/// seeded from `seed` shuffles it, so the outcome is a function of the
/// grid and the seed alone.
pub open spec fn srand_at(g: Seq<u8>, cursor: int, seed: u64) -> Option<Seq<u8>>
    decreases 81 - cursor, 1int, 0int,
{
    if cursor >= 81 {
        Some(g)
    } else if g[cursor] != 0 {
        srand_at(g, cursor + 1, seed)
    } else {
        srand_cands(g, cursor, seed, crate::shuffle::shuffled(moves_list(g, cursor), seed), 0)
    }
}

/// Tries the candidates `cands[k..]` at empty cell `cursor` in order,
/// returning the first completion found.
pub open spec fn srand_cands(g: Seq<u8>, cursor: int, seed: u64, cands: Seq<usize>, k: int) -> Option<
    Seq<u8>,
>
    decreases 81 - cursor, 0int, cands.len() - k,
{
    if !(0 <= cursor < 81 && 0 <= k < cands.len()) {
        None
    } else {
        let d = (cands[k] + 1) as u8;
        match srand_at(g.update(cursor, d), cursor + 1, seed) {
            Some(s) => Some(s),
            None => srand_cands(g, cursor, seed, cands, k + 1),
        }
    }
}

/// The digit the fold stands at after the first `t` entries of the move
/// list have been tried: one past the `t`-th entry, or 10 when none are
/// left.
pub open spec fn next_digit(ms: Seq<usize>, t: int) -> int {
    if t < ms.len() {
        ms[t] + 1
    } else {
        10
    }
}

/// Digits whose zero-based forms lie outside the move list are not legal.
proof fn lemma_gap(g: Seq<u8>, i: int, lo: int, hi: int)
    requires
        1 <= lo <= hi <= 10,
        forall|idx: int|
            0 <= idx < moves_list(g, i).len() ==> !(lo - 1 <= #[trigger] moves_list(g, i)[idx] < hi
                - 1),
    ensures
        forall|e: int| lo <= e < hi ==> !#[trigger] avail(g, i, e as u8),
{
    assert forall|e: int| lo <= e < hi implies !#[trigger] avail(g, i, e as u8) by {
        lemma_moves_contains(g, i, 9, (e - 1) as usize);
        if avail(g, i, e as u8) {
            assert(avail(g, i, (((e - 1) as usize + 1)) as u8));
            assert(moves_list(g, i).contains((e - 1) as usize));
            let idx = choose|idx: int|
                0 <= idx < moves_list(g, i).len() && moves_list(g, i)[idx] == (e - 1) as usize;
            assert(false);
        }
    }
}

impl Sudoku {
    /// Counts the completions of the board from `cursor` on, capped at
    /// `limit`, trying digits in ascending order and undoing every
    /// placement: the board comes back exactly as it was.
    pub fn count_solutions(&mut self, cursor: usize, limit: u8) -> (n: u8)
        requires
            old(self).wf(),
            cursor <= 81,
        ensures
            final(self).wf(),
            same_boards(*final(self), *old(self)),
            n == count_at(old(self).grid(), cursor as int, limit as int),
        decreases 81 - cursor,
    {
        proof {
            crate::board::lemma_wf_facts(*old(self));
        }
        if cursor >= 81 {
            return 1;
        }
        let moves_option = self.get_possible_moves(cursor);
        match moves_option {
            None => self.count_solutions(cursor + 1, limit),
            Some(moves) => {
                let ghost orig = *self;
                let ghost g0 = orig.grid();
                let ghost l = limit as int;
                let ghost ms = moves@;
                proof {
                    lemma_moves_elems(g0, cursor as int, 9);
                    if ms.len() > 0 {
                        assert(forall|idx: int|
                            0 <= idx < ms.len() ==> #[trigger] ms[idx] >= ms[0]);
                        lemma_gap(g0, cursor as int, 1, ms[0] + 1);
                    } else {
                        lemma_gap(g0, cursor as int, 1, 10);
                    }
                    lemma_count_skip_range(
                        g0,
                        cursor as int,
                        l,
                        1,
                        next_digit(ms, 0),
                        0,
                    );
                }
                let mut sum: u8 = 0;
                let mut t: usize = 0;
                while t < moves.len()
                    invariant
                        orig == *old(self),
                        orig.wf(),
                        self.wf(),
                        same_boards(*self, orig),
                        g0 == orig.grid(),
                        l == limit as int,
                        cursor < 81,
                        g0.len() == 81,
                        g0[cursor as int] == 0,
                        ms == moves@,
                        ms == moves_list(g0, cursor as int),
                        forall|a: int|
                            0 <= a < ms.len() ==> #[trigger] ms[a] < 9 && avail(
                                g0,
                                cursor as int,
                                (ms[a] + 1) as u8,
                            ),
                        forall|a: int, b: int| 0 <= a < b < ms.len() ==> ms[a] < ms[b],
                        t <= ms.len(),
                        sum <= limit,
                        count_digits(g0, cursor as int, l, 1, 0) == count_digits(
                            g0,
                            cursor as int,
                            l,
                            next_digit(ms, t as int),
                            sum as int,
                        ),
                    decreases ms.len() - t,
                {
                    proof {
                        crate::board::lemma_wf_facts(*self);
                        crate::board::lemma_wf_facts(orig);
                    }
                    let mov = moves[t];
                    let d: u8 = (mov + 1) as u8;
                    let ghost before = *self;
                    self.set_value(cursor, d);
                    let c = self.count_solutions(cursor + 1, limit);
                    proof {
                        assert(self.grid() =~= g0.update(cursor as int, d));
                    }
                    self.reset_value(cursor, d);
                    proof {
                        assert(self.grid() =~= g0);
                        let r = crate::model::row_of(cursor as int);
                        let cc = crate::model::col_of(cursor as int);
                        let q = crate::model::box_of(cursor as int);
                        crate::bits::lemma_bit_restore(
                            orig.row_masks()[r],
                            (d - 1) as u16,
                        );
                        crate::bits::lemma_bit_restore(
                            orig.col_masks()[cc],
                            (d - 1) as u16,
                        );
                        crate::bits::lemma_bit_restore(
                            orig.box_masks()[q],
                            (d - 1) as u16,
                        );
                        assert(self.row_masks() =~= orig.row_masks());
                        assert(self.col_masks() =~= orig.col_masks());
                        assert(self.box_masks() =~= orig.box_masks());
                        assert(same_boards(*self, orig));
                    }
                    let ghost c_spec = count_at(g0.update(cursor as int, d), cursor as int + 1, l);
                    assert(c == c_spec);
                    if sum as u16 + c as u16 >= limit as u16 {
                        proof {
                            assert(count_digits(g0, cursor as int, l, next_digit(ms, t as int),
                                sum as int) == l);
                        }
                        return limit;
                    }
                    proof {
                        assert(count_digits(g0, cursor as int, l, next_digit(ms, t as int),
                            sum as int) == count_digits(g0, cursor as int, l, ms[t as int] + 2,
                            sum as int + c_spec));
                        assert forall|idx: int| 0 <= idx < ms.len() implies !(ms[t as int] + 1
                            <= #[trigger] ms[idx] < next_digit(ms, t as int + 1) - 1) by {
                            if idx <= t as int {
                                assert(ms[idx] <= ms[t as int]);
                            } else {
                                assert(ms[idx] >= ms[t as int + 1]);
                            }
                        }
                        lemma_gap(g0, cursor as int, ms[t as int] + 2, next_digit(ms, t as int + 1));
                        lemma_count_skip_range(g0, cursor as int, l, ms[t as int] + 2,
                            next_digit(ms, t as int + 1), sum as int + c_spec);
                    }
                    sum = sum + c;
                    t = t + 1;
                }
                proof {
                    assert(count_digits(g0, cursor as int, l, 10, sum as int) == sum as int);
                }
                sum
            },
        }
    }

    /// Deterministic depth-first solve from `cursor`: tries digits in
    /// ascending order at each empty cell. On success the board holds a
    /// completion of what it held; on failure no completion exists and the
    /// board comes back exactly as it was.
    pub fn solve(&mut self, cursor: usize) -> (found: bool)
        requires
            old(self).wf(),
            cursor <= 81,
            forall|j: int| 0 <= j < cursor ==> old(self).grid()[j] != 0,
        ensures
            final(self).wf(),
            found ==> complete(final(self).grid()) && extends(
                final(self).grid(),
                old(self).grid(),
            ),
            !found ==> same_boards(*final(self), *old(self)),
            !found ==> !(exists|s: Seq<u8>| is_solution_of(s, old(self).grid())),
        decreases 81 - cursor,
    {
        proof {
            crate::board::lemma_wf_facts(*old(self));
        }
        if cursor >= 81 {
            proof {
                assert(complete(self.grid()));
            }
            return true;
        }
        match self.get_possible_moves(cursor) {
            None => self.solve(cursor + 1),
            Some(moves) => {
                let ghost orig = *self;
                let ghost g0 = orig.grid();
                let ghost ms = moves@;
                proof {
                    lemma_moves_elems(g0, cursor as int, 9);
                    assert forall|s: Seq<u8>| #[trigger] is_solution_of(s, g0) implies exists|
                        k: int,
                    | 0 <= k < ms.len() && ms[k] == (s[cursor as int] - 1) as usize by {
                        lemma_solution_avail(s, g0, cursor as int);
                        lemma_moves_contains(g0, cursor as int, 9, (s[cursor as int] - 1) as usize);
                        assert(avail(g0, cursor as int, (((s[cursor as int] - 1) as usize
                            + 1)) as u8));
                        assert(ms.contains((s[cursor as int] - 1) as usize));
                    }
                }
                let mut t: usize = 0;
                while t < moves.len()
                    invariant
                        orig == *old(self),
                        orig.wf(),
                        self.wf(),
                        same_boards(*self, orig),
                        g0 == orig.grid(),
                        cursor < 81,
                        g0.len() == 81,
                        g0[cursor as int] == 0,
                        forall|j: int| 0 <= j < cursor ==> g0[j] != 0,
                        ms == moves@,
                        ms == moves_list(g0, cursor as int),
                        forall|a: int|
                            0 <= a < ms.len() ==> #[trigger] ms[a] < 9 && avail(
                                g0,
                                cursor as int,
                                (ms[a] + 1) as u8,
                            ),
                        t <= ms.len(),
                        forall|s: Seq<u8>| #[trigger] is_solution_of(s, g0) ==> exists|k: int|
                            t <= k < ms.len() && ms[k] == (s[cursor as int] - 1) as usize,
                    decreases ms.len() - t,
                {
                    proof {
                        crate::board::lemma_wf_facts(*self);
                        crate::board::lemma_wf_facts(orig);
                    }
                    let mov = moves[t];
                    let d: u8 = (mov + 1) as u8;
                    self.set_value(cursor, d);
                    let found = self.solve(cursor + 1);
                    if found {
                        proof {
                            let gf = self.grid();
                            assert forall|j: int| 0 <= j < 81 && #[trigger] g0[j] != 0 implies gf[j]
                                == g0[j] by {
                                assert(g0.update(cursor as int, d)[j] == g0[j]);
                            }
                        }
                        return true;
                    }
                    self.reset_value(cursor, d);
                    proof {
                        assert(self.grid() =~= g0);
                        let r = crate::model::row_of(cursor as int);
                        let cc = crate::model::col_of(cursor as int);
                        let q = crate::model::box_of(cursor as int);
                        crate::bits::lemma_bit_restore(orig.row_masks()[r], (d - 1) as u16);
                        crate::bits::lemma_bit_restore(orig.col_masks()[cc], (d - 1) as u16);
                        crate::bits::lemma_bit_restore(orig.box_masks()[q], (d - 1) as u16);
                        assert(self.row_masks() =~= orig.row_masks());
                        assert(self.col_masks() =~= orig.col_masks());
                        assert(self.box_masks() =~= orig.box_masks());
                        assert(same_boards(*self, orig));
                        assert forall|s: Seq<u8>| #[trigger] is_solution_of(s, g0) implies exists|
                            k: int,
                        | t as int + 1 <= k < ms.len() && ms[k] == (s[cursor as int]
                            - 1) as usize by {
                            let x = (s[cursor as int] - 1) as usize;
                            let k = choose|k: int| t <= k < ms.len() && ms[k] == x;
                            if x == ms[t as int] {
                                assert(s[cursor as int] == d);
                                lemma_solution_update(s, g0, cursor as int, d);
                                assert(is_solution_of(s, g0.update(cursor as int, d)));
                                assert(false);
                            }
                            assert(k != t as int);
                        }
                    }
                    t = t + 1;
                }
                proof {
                    assert forall|s: Seq<u8>| !is_solution_of(s, g0) by {
                        if is_solution_of(s, g0) {
                            let k = choose|k: int|
                                t <= k < ms.len() && ms[k] == (s[cursor as int] - 1) as usize;
                            assert(false);
                        }
                    }
                }
                false
            },
        }
    }

    /// Randomized depth-first solve from `cursor`: at every empty cell the
    /// candidate order is freshly shuffled by a generator seeded from
    /// `seed`, so distinct completions come out for distinct seeds while
    /// one seed always reproduces the same search; the outcome is pinned
    /// to [`srand_at`].
    pub fn solve_random(&mut self, cursor: usize, seed: u64) -> (found: bool)
        requires
            old(self).wf(),
            cursor <= 81,
            forall|j: int| 0 <= j < cursor ==> old(self).grid()[j] != 0,
        ensures
            final(self).wf(),
            found ==> complete(final(self).grid()) && extends(
                final(self).grid(),
                old(self).grid(),
            ),
            !found ==> same_boards(*final(self), *old(self)),
            !found ==> !(exists|s: Seq<u8>| is_solution_of(s, old(self).grid())),
            found <==> srand_at(old(self).grid(), cursor as int, seed) is Some,
            found ==> Some(final(self).grid()) == srand_at(old(self).grid(), cursor as int, seed),
        decreases 81 - cursor,
    {
        proof {
            crate::board::lemma_wf_facts(*old(self));
        }
        if cursor >= 81 {
            proof {
                assert(complete(self.grid()));
            }
            return true;
        }
        match self.get_possible_moves_rnd(cursor, seed) {
            None => self.solve_random(cursor + 1, seed),
            Some(moves) => {
                let ghost orig = *self;
                let ghost g0 = orig.grid();
                let ghost ms = moves@;
                proof {
                    broadcast use vstd::seq_lib::group_to_multiset_ensures;

                    assert(srand_at(g0, cursor as int, seed) == srand_cands(
                        g0,
                        cursor as int,
                        seed,
                        ms,
                        0,
                    ));
                    let base = moves_list(g0, cursor as int);
                    lemma_moves_elems(g0, cursor as int, 9);
                    assert forall|a: int| 0 <= a < ms.len() implies #[trigger] ms[a] < 9 && avail(
                        g0,
                        cursor as int,
                        (ms[a] + 1) as u8,
                    ) by {
                        assert(ms.contains(ms[a]));
                        assert(ms.to_multiset().count(ms[a]) > 0);
                        assert(base.to_multiset().count(ms[a]) > 0);
                        assert(base.contains(ms[a]));
                        let b = choose|b: int| 0 <= b < base.len() && base[b] == ms[a];
                    }
                    assert forall|s: Seq<u8>| #[trigger] is_solution_of(s, g0) implies exists|
                        k: int,
                    | 0 <= k < ms.len() && ms[k] == (s[cursor as int] - 1) as usize by {
                        lemma_solution_avail(s, g0, cursor as int);
                        lemma_moves_contains(g0, cursor as int, 9, (s[cursor as int] - 1) as usize);
                        assert(avail(g0, cursor as int, (((s[cursor as int] - 1) as usize
                            + 1)) as u8));
                        assert(base.contains((s[cursor as int] - 1) as usize));
                        assert(base.to_multiset().count((s[cursor as int] - 1) as usize) > 0);
                        assert(ms.to_multiset().count((s[cursor as int] - 1) as usize) > 0);
                        assert(ms.contains((s[cursor as int] - 1) as usize));
                    }
                }
                let mut t: usize = 0;
                while t < moves.len()
                    invariant
                        orig == *old(self),
                        orig.wf(),
                        self.wf(),
                        same_boards(*self, orig),
                        g0 == orig.grid(),
                        cursor < 81,
                        g0.len() == 81,
                        g0[cursor as int] == 0,
                        forall|j: int| 0 <= j < cursor ==> g0[j] != 0,
                        ms == moves@,
                        srand_at(g0, cursor as int, seed) == srand_cands(
                            g0,
                            cursor as int,
                            seed,
                            ms,
                            0,
                        ),
                        srand_cands(g0, cursor as int, seed, ms, 0) == srand_cands(
                            g0,
                            cursor as int,
                            seed,
                            ms,
                            t as int,
                        ),
                        forall|a: int|
                            0 <= a < ms.len() ==> #[trigger] ms[a] < 9 && avail(
                                g0,
                                cursor as int,
                                (ms[a] + 1) as u8,
                            ),
                        t <= ms.len(),
                        forall|s: Seq<u8>| #[trigger] is_solution_of(s, g0) ==> exists|k: int|
                            t <= k < ms.len() && ms[k] == (s[cursor as int] - 1) as usize,
                    decreases ms.len() - t,
                {
                    proof {
                        crate::board::lemma_wf_facts(*self);
                        crate::board::lemma_wf_facts(orig);
                    }
                    let mov = moves[t];
                    let d: u8 = (mov + 1) as u8;
                    self.set_value(cursor, d);
                    let found = self.solve_random(cursor + 1, seed);
                    if found {
                        proof {
                            assert(srand_cands(g0, cursor as int, seed, ms, t as int) == Some(
                                self.grid(),
                            ));
                            let gf = self.grid();
                            assert forall|j: int| 0 <= j < 81 && #[trigger] g0[j] != 0 implies gf[j]
                                == g0[j] by {
                                assert(g0.update(cursor as int, d)[j] == g0[j]);
                            }
                        }
                        return true;
                    }
                    proof {
                        assert(srand_at(g0.update(cursor as int, d), cursor as int + 1, seed)
                            is None);
                        assert(srand_cands(g0, cursor as int, seed, ms, t as int) == srand_cands(
                            g0,
                            cursor as int,
                            seed,
                            ms,
                            t as int + 1,
                        ));
                    }
                    self.reset_value(cursor, d);
                    proof {
                        assert(self.grid() =~= g0);
                        let r = crate::model::row_of(cursor as int);
                        let cc = crate::model::col_of(cursor as int);
                        let q = crate::model::box_of(cursor as int);
                        crate::bits::lemma_bit_restore(orig.row_masks()[r], (d - 1) as u16);
                        crate::bits::lemma_bit_restore(orig.col_masks()[cc], (d - 1) as u16);
                        crate::bits::lemma_bit_restore(orig.box_masks()[q], (d - 1) as u16);
                        assert(self.row_masks() =~= orig.row_masks());
                        assert(self.col_masks() =~= orig.col_masks());
                        assert(self.box_masks() =~= orig.box_masks());
                        assert(same_boards(*self, orig));
                        assert forall|s: Seq<u8>| #[trigger] is_solution_of(s, g0) implies exists|
                            k: int,
                        | t as int + 1 <= k < ms.len() && ms[k] == (s[cursor as int]
                            - 1) as usize by {
                            let x = (s[cursor as int] - 1) as usize;
                            let k = choose|k: int| t <= k < ms.len() && ms[k] == x;
                            if x == ms[t as int] {
                                assert(s[cursor as int] == d);
                                lemma_solution_update(s, g0, cursor as int, d);
                                assert(is_solution_of(s, g0.update(cursor as int, d)));
                                assert(false);
                            }
                            assert(k != t as int);
                        }
                    }
                    t = t + 1;
                }
                proof {
                    assert forall|s: Seq<u8>| !is_solution_of(s, g0) by {
                        if is_solution_of(s, g0) {
                            let k = choose|k: int|
                                t <= k < ms.len() && ms[k] == (s[cursor as int] - 1) as usize;
                            assert(false);
                        }
                    }
                }
                false
            },
        }
    }
}

} // verus!

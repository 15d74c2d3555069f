//! Board state and move application.
//!
//! A [`Sudoku`] owns the 9x9 value grid and three families of 9-bit
//! availability masks, one mask per row, column and box. The invariant
//! [`Sudoku::wf`] ties every mask bit to the grid: bit `d` of a unit's mask
//! is set iff digit `d + 1` appears nowhere in that unit. The masks are
//! mutated only by [`Sudoku::set_value`] and [`Sudoku::reset_value`], which
//! keep the invariant.

use vstd::prelude::*;

use crate::SudokuError;
use crate::bits::{
    bit16, bits_upto, count_bits, decode_bits, lemma_bit_all_ones, lemma_bit_and3, lemma_bit_clear,
    lemma_bit_set,
};
use crate::grid::{grid_clone, grid_cols, grid_filled, grid_get, grid_len, grid_rows, grid_seq,
    grid_set};
use crate::model::{
    avail, box_free, box_of, col_free, col_of, consistent, empty_grid, grid_ok, grid_shaped,
    lemma_consistent_after_clear, lemma_consistent_after_set, lemma_free_after_clear,
    lemma_free_after_set, lemma_moves_contains, moves_list, moves_upto, prefix_grid, row_free,
    row_of, sees, strength_of, weakest_upto,
};
use crate::shuffle::{shuffle_seeded, shuffled};

verus! {

/// Board state: the value grid plus one availability mask per row, column
/// and box.
pub struct Sudoku {
    values: array2d::Array2D<u8>,
    poss_rows: [u16; 9],
    poss_cols: [u16; 9],
    poss_quads: [u16; 9],
}

impl Sudoku {
    /// The grid as a row-major sequence of 81 digits, 0 for empty.
    pub closed spec fn grid(self) -> Seq<u8> {
        grid_seq(self.values)
    }

    /// The row availability masks.
    pub closed spec fn row_masks(self) -> Seq<u16> {
        self.poss_rows@
    }

    /// The column availability masks.
    pub closed spec fn col_masks(self) -> Seq<u16> {
        self.poss_cols@
    }

    /// The box availability masks.
    pub closed spec fn box_masks(self) -> Seq<u16> {
        self.poss_quads@
    }

    /// Every mask bit agrees with the grid: bit `e` of a unit's mask is set
    /// iff digit `e + 1` appears nowhere in that unit.
    pub closed spec fn masks_ok(self) -> bool {
        &&& forall|u: int, e: u16|
            0 <= u < 9 && e < 9 ==> (#[trigger] bit16(self.poss_rows@[u], e) <==> row_free(
                self.grid(),
                u,
                (e + 1) as u8,
            ))
        &&& forall|u: int, e: u16|
            0 <= u < 9 && e < 9 ==> (#[trigger] bit16(self.poss_cols@[u], e) <==> col_free(
                self.grid(),
                u,
                (e + 1) as u8,
            ))
        &&& forall|u: int, e: u16|
            0 <= u < 9 && e < 9 ==> (#[trigger] bit16(self.poss_quads@[u], e) <==> box_free(
                self.grid(),
                u,
                (e + 1) as u8,
            ))
    }

    /// The board invariant: a 9x9 grid of digits 0..=9 with no conflict,
    /// and masks that agree with it.
    pub closed spec fn wf(self) -> bool {
        &&& grid_rows(self.values) == 9
        &&& grid_cols(self.values) == 9
        &&& grid_shaped(self.grid())
        &&& consistent(self.grid())
        &&& self.masks_ok()
    }

    /// An all-empty board: every mask has all nine low bits set.
    fn new_empty() -> (s: Sudoku)
        ensures
            s.wf(),
            s.grid() == empty_grid(),
    {
        let s = Sudoku {
            values: grid_filled(0, 9, 9),
            poss_rows: [0xffffu16;9],
            poss_cols: [0xffffu16;9],
            poss_quads: [0xffffu16;9],
        };
        proof {
            assert(s.grid() =~= empty_grid());
            assert forall|u: int, e: u16| 0 <= u < 9 && e < 9 implies #[trigger] bit16(
                s.poss_rows@[u],
                e,
            ) by {
                lemma_bit_all_ones(e);
            }
            assert forall|u: int, e: u16| 0 <= u < 9 && e < 9 implies #[trigger] bit16(
                s.poss_cols@[u],
                e,
            ) by {
                lemma_bit_all_ones(e);
            }
            assert forall|u: int, e: u16| 0 <= u < 9 && e < 9 implies #[trigger] bit16(
                s.poss_quads@[u],
                e,
            ) by {
                lemma_bit_all_ones(e);
            }
            assert(forall|j: int| 0 <= j < 81 ==> empty_grid()[j] == 0);
        }
        s
    }

    /// Builds a board. With no grid, the board is empty. With a grid, each
    /// non-zero cell is placed in row-major order after checking it against
    /// the masks; the construction returns `Ok` exactly when the grid is a
    /// conflict-free 9x9 grid of digits 0..=9.
    pub fn new(values_option: Option<&array2d::Array2D<u8>>) -> (r: Result<Sudoku, SudokuError>)
        requires
            values_option matches Some(v) ==> grid_rows(*v) == 9 && grid_cols(*v) == 9,
        ensures
            values_option is None ==> (r matches Ok(s) && s.wf() && s.grid() == empty_grid()),
            values_option matches Some(v) ==> {
                &&& r is Ok <==> grid_ok(grid_seq(*v))
                &&& (r matches Ok(s) ==> s.wf() && s.grid() == grid_seq(*v))
                &&& (r is Err ==> r == Result::<Sudoku, SudokuError>::Err(SudokuError::Conflict))
            },
    {
        let mut s = Sudoku::new_empty();
        match values_option {
            None => Ok(s),
            Some(values) => {
                assert(values_option == Some(values));
                let ghost g = grid_seq(*values);
                let n = grid_len(values);
                assert(n == 81);
                assert(g.len() == 81);
                let mut k: usize = 0;
                assert(s.grid() =~= prefix_grid(g, 0));
                while k < 81
                    invariant
                        k <= 81,
                        values_option == Some(values),
                        g.len() == 81,
                        g == grid_seq(*values),
                        grid_rows(*values) == 9,
                        grid_cols(*values) == 9,
                        s.wf(),
                        s.grid() == prefix_grid(g, k as int),
                    decreases 81 - k,
                {
                    let r = k / 9;
                    let c = k % 9;
                    assert(r < 9 && c < 9 && r * 9 + c == k);
                    let value = grid_get(values, r, c);
                    assert(value == g[k as int]);
                    if value > 0 {
                        assert(s.grid()[k as int] == 0);
                        let mov = (value - 1) as usize;
                        match s.get_possible_moves(k) {
                            Some(moves) => {
                                proof {
                                    lemma_moves_contains(s.grid(), k as int, 9, mov);
                                }
                                if vec_contains(&moves, mov) {
                                    assert(value <= 9);
                                    assert(avail(s.grid(), k as int, value));
                                    s.set_value(k, value);
                                    assert(s.grid() =~= prefix_grid(g, k as int + 1));
                                } else {
                                    proof {
                                        lemma_conflict_found(g, k as int, value);
                                    }
                                    return Err(SudokuError::Conflict);
                                }
                            },
                            None => {
                                return Err(SudokuError::Conflict);
                            },
                        }
                    } else {
                        assert(s.grid() =~= prefix_grid(g, k as int + 1));
                    }
                    k = k + 1;
                }
                assert(s.grid() =~= g);
                Ok(s)
            },
        }
    }

    /// Unconditional placement of digit `d` at empty cell `i`: clears the
    /// digit's bit from the cell's three unit masks and writes the digit.
    /// The caller must have checked legality; search procedures call this
    /// only after consulting the possible moves.
    pub fn set_value(&mut self, i: usize, d: u8)
        requires
            old(self).wf(),
            i < 81,
            old(self).grid()[i as int] == 0,
            1 <= d <= 9,
            avail(old(self).grid(), i as int, d),
        ensures
            final(self).wf(),
            final(self).grid() == old(self).grid().update(i as int, d),
            final(self).row_masks() == old(self).row_masks().update(
                row_of(i as int),
                old(self).row_masks()[row_of(i as int)] & !(1u16 << ((d - 1) as u16)),
            ),
            final(self).col_masks() == old(self).col_masks().update(
                col_of(i as int),
                old(self).col_masks()[col_of(i as int)] & !(1u16 << ((d - 1) as u16)),
            ),
            final(self).box_masks() == old(self).box_masks().update(
                box_of(i as int),
                old(self).box_masks()[box_of(i as int)] & !(1u16 << ((d - 1) as u16)),
            ),
            bit16(old(self).row_masks()[row_of(i as int)], (d - 1) as u16),
            bit16(old(self).col_masks()[col_of(i as int)], (d - 1) as u16),
            bit16(old(self).box_masks()[box_of(i as int)], (d - 1) as u16),
    {
        let r = i / 9;
        let c = i % 9;
        let q = 3 * (r / 3) + c / 3;
        assert(r == row_of(i as int) && c == col_of(i as int) && q == box_of(i as int));
        assert(r < 9 && c < 9 && q < 9 && r * 9 + c == i);
        proof {
            assert(bit16(old(self).poss_rows@[r as int], (d - 1) as u16));
            assert(bit16(old(self).poss_cols@[c as int], (d - 1) as u16));
            assert(bit16(old(self).poss_quads@[q as int], (d - 1) as u16));
        }
        let inv: u16 = !(1u16 << ((d - 1) as u16));
        self.poss_rows[r] = self.poss_rows[r] & inv;
        self.poss_cols[c] = self.poss_cols[c] & inv;
        self.poss_quads[q] = self.poss_quads[q] & inv;
        grid_set(&mut self.values, r, c, d);
        proof {
            let g = old(self).grid();
            let g2 = self.grid();
            assert(g2 =~= g.update(i as int, d));
            lemma_consistent_after_set(g, i as int, d);
            assert forall|u: int, e: u16| 0 <= u < 9 && e < 9 implies (#[trigger] bit16(
                self.poss_rows@[u],
                e,
            ) <==> row_free(g2, u, (e + 1) as u8)) by {
                lemma_free_after_set(g, i as int, d, u, (e + 1) as u8);
                if u == row_of(i as int) {
                    lemma_bit_clear(old(self).poss_rows@[u], (d - 1) as u16, e);
                }
            }
            assert forall|u: int, e: u16| 0 <= u < 9 && e < 9 implies (#[trigger] bit16(
                self.poss_cols@[u],
                e,
            ) <==> col_free(g2, u, (e + 1) as u8)) by {
                lemma_free_after_set(g, i as int, d, u, (e + 1) as u8);
                if u == col_of(i as int) {
                    lemma_bit_clear(old(self).poss_cols@[u], (d - 1) as u16, e);
                }
            }
            assert forall|u: int, e: u16| 0 <= u < 9 && e < 9 implies (#[trigger] bit16(
                self.poss_quads@[u],
                e,
            ) <==> box_free(g2, u, (e + 1) as u8)) by {
                lemma_free_after_set(g, i as int, d, u, (e + 1) as u8);
                if u == box_of(i as int) {
                    lemma_bit_clear(old(self).poss_quads@[u], (d - 1) as u16, e);
                }
            }
        }
    }

    /// Inverse of [`Sudoku::set_value`]: zeroes the cell and restores the
    /// digit's bit in the cell's three unit masks. The cell must currently
    /// hold the digit being cleared.
    pub fn reset_value(&mut self, i: usize, d: u8)
        requires
            old(self).wf(),
            i < 81,
            old(self).grid()[i as int] == d,
            1 <= d <= 9,
        ensures
            final(self).wf(),
            final(self).grid() == old(self).grid().update(i as int, 0u8),
            final(self).row_masks() == old(self).row_masks().update(
                row_of(i as int),
                old(self).row_masks()[row_of(i as int)] | (1u16 << ((d - 1) as u16)),
            ),
            final(self).col_masks() == old(self).col_masks().update(
                col_of(i as int),
                old(self).col_masks()[col_of(i as int)] | (1u16 << ((d - 1) as u16)),
            ),
            final(self).box_masks() == old(self).box_masks().update(
                box_of(i as int),
                old(self).box_masks()[box_of(i as int)] | (1u16 << ((d - 1) as u16)),
            ),
            !bit16(old(self).row_masks()[row_of(i as int)], (d - 1) as u16),
            !bit16(old(self).col_masks()[col_of(i as int)], (d - 1) as u16),
            !bit16(old(self).box_masks()[box_of(i as int)], (d - 1) as u16),
    {
        let r = i / 9;
        let c = i % 9;
        let q = 3 * (r / 3) + c / 3;
        assert(r == row_of(i as int) && c == col_of(i as int) && q == box_of(i as int));
        assert(r < 9 && c < 9 && q < 9 && r * 9 + c == i);
        proof {
            assert(!row_free(old(self).grid(), r as int, d));
            assert(!col_free(old(self).grid(), c as int, d));
            assert(!box_free(old(self).grid(), q as int, d));
            assert(!bit16(old(self).poss_rows@[r as int], (d - 1) as u16));
            assert(!bit16(old(self).poss_cols@[c as int], (d - 1) as u16));
            assert(!bit16(old(self).poss_quads@[q as int], (d - 1) as u16));
        }
        let bin: u16 = 1u16 << ((d - 1) as u16);
        grid_set(&mut self.values, r, c, 0);
        self.poss_rows[r] = self.poss_rows[r] | bin;
        self.poss_cols[c] = self.poss_cols[c] | bin;
        self.poss_quads[q] = self.poss_quads[q] | bin;
        proof {
            let g = old(self).grid();
            let g2 = self.grid();
            assert(g2 =~= g.update(i as int, 0u8));
            lemma_consistent_after_clear(g, i as int);
            assert forall|u: int, e: u16| 0 <= u < 9 && e < 9 implies (#[trigger] bit16(
                self.poss_rows@[u],
                e,
            ) <==> row_free(g2, u, (e + 1) as u8)) by {
                lemma_free_after_clear(g, i as int, u, (e + 1) as u8);
                if u == row_of(i as int) {
                    lemma_bit_set(old(self).poss_rows@[u], (d - 1) as u16, e);
                }
            }
            assert forall|u: int, e: u16| 0 <= u < 9 && e < 9 implies (#[trigger] bit16(
                self.poss_cols@[u],
                e,
            ) <==> col_free(g2, u, (e + 1) as u8)) by {
                lemma_free_after_clear(g, i as int, u, (e + 1) as u8);
                if u == col_of(i as int) {
                    lemma_bit_set(old(self).poss_cols@[u], (d - 1) as u16, e);
                }
            }
            assert forall|u: int, e: u16| 0 <= u < 9 && e < 9 implies (#[trigger] bit16(
                self.poss_quads@[u],
                e,
            ) <==> box_free(g2, u, (e + 1) as u8)) by {
                lemma_free_after_clear(g, i as int, u, (e + 1) as u8);
                if u == box_of(i as int) {
                    lemma_bit_set(old(self).poss_quads@[u], (d - 1) as u16, e);
                }
            }
        }
    }

    /// The digit at cell `i`, 0 for empty.
    pub fn get_value(&self, i: usize) -> (v: u8)
        requires
            self.wf(),
            i < 81,
        ensures
            v == self.grid()[i as int],
    {
        let r = i / 9;
        let c = i % 9;
        assert(r < 9 && c < 9 && r * 9 + c == i);
        grid_get(&self.values, r, c)
    }

    /// The set of legal digits at cell `i`, zero-based and ascending, or
    /// `None` if the cell is occupied.
    pub fn get_possible_moves(&self, i: usize) -> (r: Option<Vec<usize>>)
        requires
            self.wf(),
            i < 81,
        ensures
            r is Some <==> self.grid()[i as int] == 0,
            r matches Some(ms) ==> ms@ == moves_list(self.grid(), i as int),
    {
        let r = i / 9;
        let c = i % 9;
        let q = 3 * (r / 3) + c / 3;
        assert(r == row_of(i as int) && c == col_of(i as int) && q == box_of(i as int));
        assert(r < 9 && c < 9 && q < 9 && r * 9 + c == i);
        let val = grid_get(&self.values, r, c);
        assert(val == self.grid()[i as int]);
        if val > 0 {
            return None;
        }
        let poss: u16 = self.poss_rows[r] & self.poss_cols[c] & self.poss_quads[q];
        let ms = decode_bits(poss);
        proof {
            assert forall|e: u16| e < 9 implies (#[trigger] bit16(poss, e) <==> avail(
                self.grid(),
                i as int,
                (e + 1) as u8,
            )) by {
                lemma_bit_and3(self.poss_rows@[r as int], self.poss_cols@[c as int],
                    self.poss_quads@[q as int], e);
            }
            lemma_bits_eq_moves(poss, self.grid(), i as int, 9);
        }
        Some(ms)
    }

    /// Same as [`Sudoku::get_possible_moves`], but the list comes back in
    /// the order a generator freshly seeded from `seed` shuffles it into.
    pub fn get_possible_moves_rnd(&self, i: usize, seed: u64) -> (r: Option<Vec<usize>>)
        requires
            self.wf(),
            i < 81,
        ensures
            r is Some <==> self.grid()[i as int] == 0,
            r matches Some(ms) ==> ms@ == shuffled(moves_list(self.grid(), i as int), seed)
                && ms@.to_multiset() == moves_list(self.grid(), i as int).to_multiset()
                && ms@.len() == moves_list(self.grid(), i as int).len(),
    {
        match self.get_possible_moves(i) {
            None => None,
            Some(mut moves) => {
                shuffle_seeded(&mut moves, seed);
                Some(moves)
            },
        }
    }

    /// The strength of cell `i`: the number of digits that would be legal
    /// there if the cell were empty.
    pub fn get_strength(&self, i: usize) -> (n: usize)
        requires
            self.wf(),
            i < 81,
        ensures
            n == strength_of(self.grid(), i as int),
    {
        let r = i / 9;
        let c = i % 9;
        let q = 3 * (r / 3) + c / 3;
        assert(r == row_of(i as int) && c == col_of(i as int) && q == box_of(i as int));
        assert(r < 9 && c < 9 && q < 9 && r * 9 + c == i);
        let value = grid_get(&self.values, r, c);
        assert(value == self.grid()[i as int]);
        let ghost g = self.grid();
        let ghost gc = g.update(i as int, 0u8);
        let poss: u16;
        if value == 0 {
            poss = self.poss_rows[r] & self.poss_cols[c] & self.poss_quads[q];
            proof {
                assert(gc =~= g);
                assert forall|e: u16| e < 9 implies (#[trigger] bit16(poss, e) <==> avail(
                    gc,
                    i as int,
                    (e + 1) as u8,
                )) by {
                    lemma_bit_and3(self.poss_rows@[r as int], self.poss_cols@[c as int],
                        self.poss_quads@[q as int], e);
                }
            }
        } else {
            let bin: u16 = 1u16 << ((value - 1) as u16);
            poss = (self.poss_rows[r] | bin) & (self.poss_cols[c] | bin) & (self.poss_quads[q]
                | bin);
            proof {
                assert forall|e: u16| e < 9 implies (#[trigger] bit16(poss, e) <==> avail(
                    gc,
                    i as int,
                    (e + 1) as u8,
                )) by {
                    lemma_bit_and3(self.poss_rows@[r as int] | bin, self.poss_cols@[c as int] | bin,
                        self.poss_quads@[q as int] | bin, e);
                    lemma_bit_set(self.poss_rows@[r as int], (value - 1) as u16, e);
                    lemma_bit_set(self.poss_cols@[c as int], (value - 1) as u16, e);
                    lemma_bit_set(self.poss_quads@[q as int], (value - 1) as u16, e);
                    lemma_free_after_clear(g, i as int, r as int, (e + 1) as u8);
                    lemma_free_after_clear(g, i as int, c as int, (e + 1) as u8);
                    lemma_free_after_clear(g, i as int, q as int, (e + 1) as u8);
                }
            }
        }
        let n = count_bits(poss);
        proof {
            lemma_bits_eq_moves(poss, gc, i as int, 9);
        }
        n
    }

    /// The index, within `fields`, of the first cell of minimal strength:
    /// the weakest clue. For an empty list the index is 0.
    pub fn get_weakest_clue_idx_in(&self, fields: &Vec<usize>) -> (idx: usize)
        requires
            self.wf(),
            forall|t: int| 0 <= t < fields@.len() ==> #[trigger] fields@[t] < 81,
        ensures
            idx == weakest_upto(self.grid(), fields@, fields@.len() as int),
            fields@.len() > 0 ==> idx < fields@.len() && forall|t: int|
                0 <= t < fields@.len() ==> strength_of(self.grid(), #[trigger] fields@[t] as int)
                    >= strength_of(self.grid(), fields@[idx as int] as int),
    {
        let ghost g = self.grid();
        let mut weakest_strength: usize = 10;
        let mut weakest_clue_idx: usize = 0;
        let mut t: usize = 0;
        while t < fields.len()
            invariant
                self.wf(),
                g == self.grid(),
                t <= fields@.len(),
                forall|k: int| 0 <= k < fields@.len() ==> #[trigger] fields@[k] < 81,
                weakest_clue_idx == weakest_upto(g, fields@, t as int),
                t == 0 ==> weakest_strength == 10 && weakest_clue_idx == 0,
                t > 0 ==> weakest_clue_idx < t && weakest_strength == strength_of(
                    g,
                    fields@[weakest_clue_idx as int] as int,
                ),
                forall|k: int|
                    0 <= k < t ==> strength_of(g, #[trigger] fields@[k] as int)
                        >= weakest_strength,
            decreases fields@.len() - t,
        {
            let s = self.get_strength(fields[t]);
            proof {
                crate::model::lemma_strength_bounds(g, fields@[t as int] as int);
            }
            if s < weakest_strength {
                weakest_strength = s;
                weakest_clue_idx = t;
            }
            t = t + 1;
        }
        weakest_clue_idx
    }

    /// Hands the grid back, consuming the board.
    pub fn into_values(self) -> (v: array2d::Array2D<u8>)
        requires
            self.wf(),
        ensures
            grid_seq(v) == self.grid(),
            grid_rows(v) == 9,
            grid_cols(v) == 9,
    {
        self.values
    }

    /// A copy of the grid.
    pub fn clone_values(&self) -> (v: array2d::Array2D<u8>)
        requires
            self.wf(),
        ensures
            grid_seq(v) == self.grid(),
            grid_rows(v) == 9,
            grid_cols(v) == 9,
    {
        grid_clone(&self.values)
    }
}

/// What the board invariant publicly guarantees about the views.
pub proof fn lemma_wf_facts(s: Sudoku)
    requires
        s.wf(),
    ensures
        grid_shaped(s.grid()),
        consistent(s.grid()),
        s.row_masks().len() == 9,
        s.col_masks().len() == 9,
        s.box_masks().len() == 9,
{
}

/// The two boards agree on grid and on every availability mask: nothing a
/// caller can observe distinguishes them.
pub open spec fn same_boards(a: Sudoku, b: Sudoku) -> bool {
    &&& a.grid() == b.grid()
    &&& a.row_masks() == b.row_masks()
    &&& a.col_masks() == b.col_masks()
    &&& a.box_masks() == b.box_masks()
}

/// Linear membership test.
pub fn vec_contains(v: &Vec<usize>, x: usize) -> (b: bool)
    ensures
        b == v@.contains(x),
{
    let mut k: usize = 0;
    while k < v.len()
        invariant
            k <= v@.len(),
            forall|t: int| 0 <= t < k ==> v@[t] != x,
        decreases v@.len() - k,
    {
        if v[k] == x {
            assert(v@.contains(x));
            return true;
        }
        k = k + 1;
    }
    false
}

/// A mask whose low bits agree pointwise with the legal digits of cell `i`
/// decodes to exactly the cell's move list.
proof fn lemma_bits_eq_moves(m: u16, g: Seq<u8>, i: int, d: int)
    requires
        0 <= d <= 9,
        forall|e: u16| e < 9 ==> (#[trigger] bit16(m, e) <==> avail(g, i, (e + 1) as u8)),
    ensures
        bits_upto(m, d) == moves_upto(g, i, d),
    decreases d,
{
    if d > 0 {
        lemma_bits_eq_moves(m, g, i, d - 1);
        assert(bit16(m, (d - 1) as u16) <==> avail(g, i, d as u8));
    }
}

/// When a non-zero cell value is rejected against the masks of the already
/// placed prefix, the whole grid is not conflict-free.
proof fn lemma_conflict_found(g: Seq<u8>, k: int, value: u8)
    requires
        g.len() == 81,
        0 <= k < 81,
        g[k] == value,
        value > 0,
        !(value <= 9 && avail(prefix_grid(g, k), k, value)),
    ensures
        !grid_ok(g),
{
    if value <= 9 {
        let p = prefix_grid(g, k);
        if !row_free(p, row_of(k), value) {
            let j = choose|j: int| 0 <= j < 81 && row_of(j) == row_of(k) && p[j] == value;
            assert(j < k);
            assert(g[j] == value && sees(k, j) && j != k);
            assert(!consistent(g));
        } else if !col_free(p, col_of(k), value) {
            let j = choose|j: int| 0 <= j < 81 && col_of(j) == col_of(k) && p[j] == value;
            assert(j < k);
            assert(g[j] == value && sees(k, j) && j != k);
            assert(!consistent(g));
        } else {
            assert(!box_free(p, box_of(k), value));
            let j = choose|j: int| 0 <= j < 81 && box_of(j) == box_of(k) && p[j] == value;
            assert(j < k);
            assert(g[j] == value && sees(k, j) && j != k);
            assert(!consistent(g));
        }
    }
}

} // verus!

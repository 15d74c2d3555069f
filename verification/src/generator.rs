//! Puzzle generation: removing clues from a full solution while the grid
//! keeps a unique solution.
//!
//! A removal order over the nullable cells is built by repeatedly taking
//! the weakest clue (the one whose removal leaves the fewest legal
//! replacements), with a seeded shuffle breaking ties. A second
//! backtracking search then walks that order, clearing cells as long as
//! the bounded solution count stays at one, until the requested number of
//! blanks is reached.

use vstd::prelude::*;
use vstd::multiset::Multiset;

use crate::board::{Sudoku, same_boards};
use crate::model::{
    complete, grid_ok, lemma_avail_after_clear, lemma_zeros_update, row_of, col_of, box_of, zeros,
};
use crate::search::count_at;
use crate::shuffle::shuffle_seeded;

verus! {

/// `g2` comes from `g1` by clearing cells, each of them named in
/// `fs[from..]`.
pub open spec fn reduced_by(g2: Seq<u8>, g1: Seq<u8>, fs: Seq<usize>, from: int) -> bool {
    forall|j: int|
        0 <= j < 81 ==> #[trigger] g2[j] == g1[j] || (g2[j] == 0 && exists|t: int|
            from <= t < fs.len() && fs[t] == j)
}

/// The order the weakest-clue extraction produces from grid `g` over the
/// candidate cells `fs`: repeatedly the first cell of minimal strength,
/// cleared from the grid before the next round. The value
/// [`generate_sequence`] computes.
pub open spec fn removal_order(g: Seq<u8>, fs: Seq<usize>) -> Seq<usize>
    decreases fs.len(),
{
    if fs.len() == 0 {
        Seq::empty()
    } else {
        let idx = crate::model::weakest_upto(g, fs, fs.len() as int);
        if 0 <= idx < fs.len() {
            seq![fs[idx]] + removal_order(g.update(fs[idx] as int, 0u8), fs.remove(idx))
        } else {
            Seq::empty()
        }
    }
}

/// The grid the removal walk leaves behind, if it reaches the difficulty
/// target: the value [`Sudoku::generate_rec`] computes. At each step of
/// the order the cell is cleared as long as the bounded solution count
/// stays at one; a dead end restores the cell and walks on.
pub open spec fn removal_search(
    g: Seq<u8>,
    fs: Seq<usize>,
    cursor: int,
    removed: int,
    difficulty: int,
) -> Option<Seq<u8>>
    decreases fs.len() - cursor,
{
    if !(0 <= cursor < fs.len()) {
        None
    } else if count_at(g, 0, 2) > 1 {
        None
    } else if removed >= difficulty {
        Some(g)
    } else {
        let g2 = g.update(fs[cursor] as int, 0u8);
        match removal_search(g2, fs, cursor + 1, removed + 1, difficulty) {
            Some(r) => Some(r),
            None => removal_search(g, fs, cursor + 1, removed, difficulty),
        }
    }
}

impl Sudoku {
    /// Walks the removal order from `cursor`, clearing cells while the
    /// board keeps a unique solution, until `difficulty` cells are blank.
    /// On success the board holds the reduced grid; on failure it comes
    /// back exactly as it was.
    pub fn generate_rec(
        &mut self,
        fields: &Vec<usize>,
        cursor: usize,
        removed_count: u8,
        difficulty: u8,
    ) -> (done: bool)
        requires
            old(self).wf(),
            cursor <= fields@.len(),
            forall|t: int| 0 <= t < fields@.len() ==> #[trigger] fields@[t] < 81,
            forall|a: int, b: int| 0 <= a < b < fields@.len() ==> fields@[a] != fields@[b],
            forall|t: int|
                cursor <= t < fields@.len() ==> old(self).grid()[#[trigger] fields@[t] as int]
                    != 0,
            zeros(old(self).grid()) == removed_count as int,
            removed_count <= difficulty,
        ensures
            final(self).wf(),
            done ==> zeros(final(self).grid()) == difficulty as int,
            done ==> count_at(final(self).grid(), 0, 2) <= 1,
            done ==> reduced_by(final(self).grid(), old(self).grid(), fields@, cursor as int),
            !done ==> same_boards(*final(self), *old(self)),
            done <==> removal_search(
                old(self).grid(),
                fields@,
                cursor as int,
                removed_count as int,
                difficulty as int,
            ) is Some,
            done ==> Some(final(self).grid()) == removal_search(
                old(self).grid(),
                fields@,
                cursor as int,
                removed_count as int,
                difficulty as int,
            ),
        decreases fields@.len() - cursor,
    {
        proof {
            crate::board::lemma_wf_facts(*old(self));
        }
        if cursor >= fields.len() {
            return false;
        }
        let cnt = self.count_solutions(0, 2);
        if cnt > 1 {
            return false;
        }
        if removed_count >= difficulty {
            proof {
                assert(reduced_by(self.grid(), old(self).grid(), fields@, cursor as int));
            }
            return true;
        }
        let i = fields[cursor];
        let mov = self.get_value(i);
        let ghost g0 = self.grid();
        self.reset_value(i, mov);
        proof {
            lemma_zeros_update(g0, i as int, 0u8, 81);
            assert forall|t: int|
                cursor as int + 1 <= t < fields@.len() implies self.grid()[#[trigger] fields@[
                t] as int] != 0 by {
                assert(fields@[t] != fields@[cursor as int]);
            }
        }
        let ghost mid = *self;
        if self.generate_rec(fields, cursor + 1, removed_count + 1, difficulty) {
            proof {
                assert(removal_search(
                    g0,
                    fields@,
                    cursor as int,
                    removed_count as int,
                    difficulty as int,
                ) == Some(self.grid()));
                assert forall|j: int|
                    0 <= j < 81 implies #[trigger] self.grid()[j] == g0[j] || (self.grid()[j] == 0
                    && exists|t: int|
                    cursor as int <= t < fields@.len() && fields@[t] == j) by {
                    if self.grid()[j] != g0[j] {
                        if mid.grid()[j] == g0[j] {
                            // changed by the deeper search
                            assert(self.grid()[j] == 0);
                            let t = choose|t: int|
                                cursor as int + 1 <= t < fields@.len() && fields@[t] == j;
                            assert(cursor as int <= t < fields@.len() && fields@[t] == j);
                        } else {
                            // changed by this clearing
                            assert(j == i as int);
                            if self.grid()[j] == mid.grid()[j] {
                                assert(self.grid()[j] == 0);
                                assert(fields@[cursor as int] == j);
                            } else {
                                assert(self.grid()[j] == 0);
                                let t = choose|t: int|
                                    cursor as int + 1 <= t < fields@.len() && fields@[t] == j;
                                assert(cursor as int <= t < fields@.len() && fields@[t] == j);
                            }
                        }
                    }
                }
            }
            return true;
        }
        proof {
            crate::board::lemma_wf_facts(mid);
            lemma_avail_after_clear(g0, i as int);
        }
        self.set_value(i, mov);
        proof {
            assert(self.grid() =~= g0);
            let r = row_of(i as int);
            let cc = col_of(i as int);
            let q = box_of(i as int);
            let ghost pre = *old(self);
            crate::board::lemma_wf_facts(pre);
            crate::bits::lemma_bit_restore_clear(pre.row_masks()[r], (mov - 1) as u16);
            crate::bits::lemma_bit_restore_clear(pre.col_masks()[cc], (mov - 1) as u16);
            crate::bits::lemma_bit_restore_clear(pre.box_masks()[q], (mov - 1) as u16);
            assert(self.row_masks() =~= pre.row_masks());
            assert(self.col_masks() =~= pre.col_masks());
            assert(self.box_masks() =~= pre.box_masks());
            assert(same_boards(*self, pre));
            lemma_zeros_update(g0.update(i as int, 0u8), i as int, mov, 81);
        }
        let done = self.generate_rec(fields, cursor + 1, removed_count, difficulty);
        proof {
            assert(removal_search(
                g0.update(i as int, 0u8),
                fields@,
                cursor as int + 1,
                removed_count as int + 1,
                difficulty as int,
            ) is None);
            if done {
                assert forall|j: int|
                    0 <= j < 81 implies #[trigger] self.grid()[j] == old(self).grid()[j] || (
                    self.grid()[j] == 0 && exists|t: int|
                    cursor as int <= t < fields@.len() && fields@[t] == j) by {
                    if self.grid()[j] != old(self).grid()[j] {
                        assert(self.grid()[j] == 0);
                        let t = choose|t: int|
                            cursor as int + 1 <= t < fields@.len() && fields@[t] == j;
                        assert(cursor as int <= t < fields@.len() && fields@[t] == j);
                    }
                }
            }
        }
        done
    }
}

/// Builds the removal order: the nullable cells, shuffled by `seed` for
/// tie-breaking, then repeatedly reduced by extracting the weakest clue of
/// a board holding the full solution. The result holds exactly the cells
/// of `fields`, each once.
pub fn generate_sequence(
    solution: &array2d::Array2D<u8>,
    seed: u64,
    fields: Vec<usize>,
) -> (order: Vec<usize>)
    requires
        crate::grid::grid_rows(*solution) == 9,
        crate::grid::grid_cols(*solution) == 9,
        grid_ok(crate::grid::grid_seq(*solution)),
        complete(crate::grid::grid_seq(*solution)),
        forall|t: int| 0 <= t < fields@.len() ==> #[trigger] fields@[t] < 81,
        forall|a: int, b: int| 0 <= a < b < fields@.len() ==> fields@[a] != fields@[b],
    ensures
        order@.to_multiset() == fields@.to_multiset(),
        forall|t: int| 0 <= t < order@.len() ==> #[trigger] order@[t] < 81,
        forall|a: int, b: int| 0 <= a < b < order@.len() ==> order@[a] != order@[b],
        order@ == removal_order(
            crate::grid::grid_seq(*solution),
            crate::shuffle::shuffled(fields@, seed),
        ),
{
    let ghost fields0 = fields@;
    let mut fields = fields;
    shuffle_seeded(&mut fields, seed);
    proof {
        broadcast use vstd::seq_lib::group_to_multiset_ensures;

        assert forall|t: int| 0 <= t < fields@.len() implies #[trigger] fields@[t] < 81 by {
            assert(fields@.contains(fields@[t]));
            assert(fields@.to_multiset().count(fields@[t]) > 0);
            assert(fields0.to_multiset().count(fields@[t]) > 0);
            assert(fields0.contains(fields@[t]));
            let b = choose|b: int| 0 <= b < fields0.len() && fields0[b] == fields@[t];
        }
        fields0.lemma_multiset_has_no_duplicates();
        fields@.lemma_multiset_has_no_duplicates_conv();
    }
    let board_result = Sudoku::new(Some(solution));
    match board_result {
        Err(_) => Vec::new(),
        Ok(mut s) => {
            let ghost all = fields@.to_multiset();
            let ghost sol_g = crate::grid::grid_seq(*solution);
            let ghost target = removal_order(sol_g, fields@);
            let mut cursor_queue: Vec<usize> = Vec::new();
            proof {
                assert(s.grid() == sol_g);
                assert(Seq::<usize>::empty() + removal_order(s.grid(), fields@) =~= target);
            }
            while fields.len() > 0
                invariant
                    s.wf(),
                    target == removal_order(sol_g, crate::shuffle::shuffled(fields0, seed)),
                    cursor_queue@ + removal_order(s.grid(), fields@) == target,
                    forall|t: int| 0 <= t < fields@.len() ==> #[trigger] fields@[t] < 81,
                    forall|a: int, b: int| 0 <= a < b < fields@.len() ==> fields@[a] != fields@[b],
                    forall|t: int|
                        0 <= t < fields@.len() ==> self_grid_nonzero(s, #[trigger] fields@[t]),
                    forall|t: int| 0 <= t < cursor_queue@.len() ==> #[trigger] cursor_queue@[t] < 81,
                    forall|a: int, b: int|
                        0 <= a < b < cursor_queue@.len() ==> cursor_queue@[a] != cursor_queue@[b],
                    forall|a: int, t: int|
                        0 <= a < cursor_queue@.len() && 0 <= t < fields@.len()
                            ==> #[trigger] cursor_queue@[a] != #[trigger] fields@[t],
                    cursor_queue@.to_multiset().add(fields@.to_multiset()) == all,
                    all == fields0.to_multiset(),
                decreases fields@.len(),
            {
                proof {
                    broadcast use vstd::seq_lib::group_to_multiset_ensures;

                }
                let weakest_clue_idx = s.get_weakest_clue_idx_in(&fields);
                let ghost pre_fields = fields@;
                let ghost pre_grid = s.grid();
                proof {
                    crate::model::lemma_weakest_bounds(pre_grid, pre_fields, pre_fields.len() as int);
                }
                let weakest_clue = fields.remove(weakest_clue_idx);
                proof {
                    crate::board::lemma_wf_facts(s);
                    pre_fields.remove_ensures(weakest_clue_idx as int);
                    assert(fields@ == pre_fields.remove(weakest_clue_idx as int));
                    assert forall|t: int|
                        0 <= t < fields@.len() implies #[trigger] fields@[t] == pre_fields[
                        if t < weakest_clue_idx as int {
                            t
                        } else {
                            t + 1
                        }] by {
                        if t < weakest_clue_idx as int {
                            assert(pre_fields.remove(weakest_clue_idx as int)[t]
                                == pre_fields[t]);
                        } else {
                            assert(pre_fields.remove(weakest_clue_idx as int)[t] == pre_fields[t
                                + 1]);
                        }
                    }
                }
                let value = s.get_value(weakest_clue);
                s.reset_value(weakest_clue, value);
                cursor_queue.push(weakest_clue);
                proof {
                    broadcast use vstd::seq_lib::group_to_multiset_ensures;
                    broadcast use vstd::multiset::group_multiset_axioms;

                    pre_fields.remove_ensures(weakest_clue_idx as int);
                    assert forall|a: int, b: int|
                        0 <= a < b < fields@.len() implies fields@[a] != fields@[b] by {
                        let a2 = if a < weakest_clue_idx as int { a } else { a + 1 };
                        let b2 = if b < weakest_clue_idx as int { b } else { b + 1 };
                        assert(fields@[a] == pre_fields[a2] && fields@[b] == pre_fields[b2]);
                    }
                    assert forall|t: int|
                        0 <= t < fields@.len() implies self_grid_nonzero(
                        s,
                        #[trigger] fields@[t],
                    ) by {
                        let t2 = if t < weakest_clue_idx as int { t } else { t + 1 };
                        assert(fields@[t] == pre_fields[t2]);
                        assert(pre_fields[t2] != pre_fields[weakest_clue_idx as int]);
                    }
                    assert forall|a: int, t: int|
                        0 <= a < cursor_queue@.len() && 0 <= t < fields@.len()
                            implies #[trigger] cursor_queue@[a] != #[trigger] fields@[t] by {
                        let t2 = if t < weakest_clue_idx as int { t } else { t + 1 };
                        assert(fields@[t] == pre_fields[t2]);
                        if a < cursor_queue@.len() - 1 {
                        } else {
                            assert(cursor_queue@[a] == pre_fields[weakest_clue_idx as int]);
                        }
                    }
                    assert(cursor_queue@.to_multiset().add(fields@.to_multiset()) =~= all);
                    // One unfolding of the removal order: the extracted cell in
                    // front, the rest computed from the reduced board.
                    assert(removal_order(pre_grid, pre_fields) == seq![
                        pre_fields[weakest_clue_idx as int],
                    ] + removal_order(
                        pre_grid.update(pre_fields[weakest_clue_idx as int] as int, 0u8),
                        pre_fields.remove(weakest_clue_idx as int),
                    ));
                    assert(cursor_queue@ + removal_order(s.grid(), fields@) =~= target);
                }
            }
            proof {
                broadcast use vstd::seq_lib::group_to_multiset_ensures;

                assert(fields@.to_multiset() =~= Multiset::empty());
                assert(cursor_queue@.to_multiset().add(Multiset::empty())
                    =~= cursor_queue@.to_multiset());
                assert(cursor_queue@ + removal_order(s.grid(), fields@) =~= cursor_queue@);
            }
            cursor_queue
        },
    }
}

/// The cell holds a digit on the board.
pub open spec fn self_grid_nonzero(s: Sudoku, i: usize) -> bool {
    s.grid()[i as int] != 0
}

} // verus!

use crate::board::{has_shape, in_range, uniform, with_cell, Gameboard};
use crate::mask::{
    allows, is_mask, is_submask, is_value, lemma_exclude, lemma_single_bit, lemma_submask,
    lemma_submask_chain, lemma_value_bit, popcount, single_value, value_bit, ToCellMask,
    ToResult, ALL_CANDIDATES,
};
use vstd::prelude::*;

verus! {

/// Whether every mask of `masks` holds only bits of the values `1..=9`.
pub open spec fn all_masks(masks: Seq<Seq<u16>>) -> bool {
    forall|x: int, y: int|
        0 <= x < masks.len() && 0 <= y < masks[x].len() ==> is_mask(#[trigger] masks[x][y])
}

/// Whether every mask of `after` is a submask of the mask of the same cell
/// in `before`: no cell has gained a candidate.
pub open spec fn narrowed(before: Seq<Seq<u16>>, after: Seq<Seq<u16>>) -> bool {
    &&& after.len() == before.len()
    &&& forall|x: int|
        0 <= x < before.len() ==> (#[trigger] after[x]).len() == before[x].len()
    &&& forall|x: int, y: int|
        0 <= x < before.len() && 0 <= y < before[x].len() ==> is_submask(
            #[trigger] after[x][y],
            before[x][y],
        )
}

/// Whether no cell of `after` has more candidates than the same cell of
/// `before`.
pub open spec fn no_more_candidates(before: Seq<Seq<u16>>, after: Seq<Seq<u16>>) -> bool {
    forall|x: int, y: int|
        0 <= x < before.len() && 0 <= y < before[x].len() ==> popcount(#[trigger] after[x][y])
            <= popcount(before[x][y])
}

/// Narrowing twice is narrowing, and nothing is narrower than itself.
pub proof fn lemma_narrowed_chain(a: Seq<Seq<u16>>, b: Seq<Seq<u16>>, c: Seq<Seq<u16>>)
    ensures
        narrowed(a, a),
        narrowed(a, b) && narrowed(b, c) ==> narrowed(a, c),
{
    assert forall|x: int, y: int| 0 <= x < a.len() && 0 <= y < a[x].len() implies is_submask(
        #[trigger] a[x][y],
        a[x][y],
    ) by {
        lemma_submask_chain(a[x][y], 0, 0);
    }
    if narrowed(a, b) && narrowed(b, c) {
        assert forall|x: int, y: int| 0 <= x < a.len() && 0 <= y < a[x].len() implies is_submask(
            #[trigger] c[x][y],
            a[x][y],
        ) by {
            assert(b[x].len() == a[x].len());
            assert(is_submask(b[x][y], a[x][y]));
            assert(is_submask(c[x][y], b[x][y]));
            lemma_submask_chain(c[x][y], b[x][y], a[x][y]);
        }
        assert forall|x: int| 0 <= x < a.len() implies (#[trigger] c[x]).len() == a[x].len() by {
            assert(b[x].len() == a[x].len());
        }
    }
}

/// Narrowing leaves no cell with more candidates than it had.
pub proof fn lemma_narrowed_counts(before: Seq<Seq<u16>>, after: Seq<Seq<u16>>)
    requires
        narrowed(before, after),
    ensures
        no_more_candidates(before, after),
{
    assert forall|x: int, y: int| 0 <= x < before.len() && 0 <= y < before[x].len() implies popcount(
        #[trigger] after[x][y],
    ) <= popcount(before[x][y]) by {
        assert(is_submask(after[x][y], before[x][y]));
        lemma_submask(after[x][y], before[x][y]);
    }
}

/// The grid after every cell whose mask holds exactly one candidate has been
/// given that candidate as its value; the other cells keep their value.
pub open spec fn resolve(grid: Seq<Seq<u8>>, masks: Seq<Seq<u16>>) -> Seq<Seq<u8>> {
    Seq::new(
        grid.len(),
        |x: int|
            Seq::new(
                grid[x].len(),
                |y: int|
                    if popcount(masks[x][y]) == 1 {
                        single_value(masks[x][y])
                    } else {
                        grid[x][y]
                    },
            ),
    )
}

/// Well-formed masks give a grid in range only values in range.
pub proof fn lemma_resolve_in_range(grid: Seq<Seq<u8>>, masks: Seq<Seq<u16>>)
    requires
        in_range(grid),
        all_masks(masks),
        masks.len() == grid.len(),
        forall|x: int| 0 <= x < grid.len() ==> (#[trigger] masks[x]).len() == grid[x].len(),
    ensures
        in_range(resolve(grid, masks)),
{
    let after = resolve(grid, masks);
    assert forall|x: int, y: int| 0 <= x < after.len() && 0 <= y < after[x].len() implies (
    #[trigger] after[x][y]) <= 9 by {
        if popcount(masks[x][y]) == 1 {
            assert(is_mask(masks[x][y]));
            lemma_single_bit(masks[x][y]);
        } else {
            assert(grid[x][y] <= 9);
        }
    }
}

/// Whether `a` and `b` differ in a cell that comes before row `x`, column
/// `y` when the cells are read row by row.
spec fn differ_before(a: Seq<Seq<u8>>, b: Seq<Seq<u8>>, x: int, y: int) -> bool {
    exists|i: int, j: int|
        0 <= i < a.len() && 0 <= j < a[i].len() && (i < x || (i == x && j < y)) && (
        #[trigger] a[i][j]) != b[i][j]
}

/// For every cell of an `X` by `Y` grid, the values that are still possible
/// there, as a mask of nine bits: bit `v - 1` is set while value `v` is possible.
#[derive(Debug)]
pub struct Candidates<const X: usize, const Y: usize> {
    cells: [[u16; Y]; X],
}

impl<const X: usize, const Y: usize> View for Candidates<X, Y> {
    type V = Seq<Seq<u16>>;

    /// The rows of the grid, each the sequence of the masks of its cells.
    open spec fn view(&self) -> Seq<Seq<u16>> {
        Seq::new(X as nat, |x: int| Seq::new(Y as nat, |y: int| self.spec_mask(x, y)))
    }
}

impl<const X: usize, const Y: usize> Default for Candidates<X, Y> {
    /// Nothing is known yet: every value is possible in every cell.
    fn default() -> (candidates: Self)
        ensures
            candidates@ == uniform(X as nat, Y as nat, ALL_CANDIDATES),
            candidates.wf(),
    {
        let candidates = Self { cells: [[ALL_CANDIDATES;Y];X] };
        proof {
            broadcast use vstd::array::axiom_spec_array_fill_for_copy_type;

            let expected = uniform(X as nat, Y as nat, ALL_CANDIDATES);
            assert forall|x: int| 0 <= x < X implies #[trigger] candidates@[x] =~= expected[x] by {}
            assert(candidates@ =~= expected);
        }
        candidates
    }
}

impl<const X: usize, const Y: usize> Candidates<X, Y> {
    /// The mask of the cell at row `x`, column `y`.
    pub closed spec fn spec_mask(&self, x: int, y: int) -> u16 {
        self.cells[x][y]
    }

    /// Every mask holds only bits of the values `1..=9`.
    pub open spec fn wf(&self) -> bool {
        all_masks(self@)
    }

    /// The mask of the cell at row `x`, column `y`.
    pub fn mask(&self, x: usize, y: usize) -> (mask: u16)
        requires
            x < X,
            y < Y,
        ensures
            mask == self@[x as int][y as int],
    {
        self.cells[x][y]
    }

    /// Gives every cell that has exactly one candidate left that candidate as
    /// its value, and says whether the grid is now another than before.
    pub fn apply_uniques(&self, gameboard: &mut Gameboard<X, Y>) -> (changes_made: bool)
        ensures
            final(gameboard)@ == resolve(old(gameboard)@, self@),
            changes_made == (final(gameboard)@ != old(gameboard)@),
            self.wf() && old(gameboard).wf() ==> final(gameboard).wf(),
            forall|x: int, y: int|
                0 <= x < X && 0 <= y < Y && popcount(#[trigger] self@[x][y]) == 1 ==> allows(
                    self@[x][y],
                    final(gameboard)@[x][y],
                ) && value_bit(final(gameboard)@[x][y]) == self@[x][y],
    {
        let mut changes_made = false;
        let ghost before = gameboard@;
        let ghost target = resolve(before, self@);

        for x in 0..X
            invariant
                has_shape(target, X as nat, Y as nat),
                target == resolve(before, self@),
                changes_made == differ_before(target, before, x as int, 0),
                forall|i: int, j: int|
                    0 <= i < X && 0 <= j < Y ==> (#[trigger] gameboard@[i][j]) == (if i < x {
                        target[i][j]
                    } else {
                        before[i][j]
                    }),
        {
            for y in 0..Y
                invariant
                    x < X,
                    has_shape(target, X as nat, Y as nat),
                    target == resolve(before, self@),
                    changes_made == differ_before(target, before, x as int, y as int),
                    forall|i: int, j: int|
                        0 <= i < X && 0 <= j < Y ==> (#[trigger] gameboard@[i][j]) == (if i < x || (
                        i == x && j < y) {
                            target[i][j]
                        } else {
                            before[i][j]
                        }),
            {
                let ghost was = changes_made;
                if self.remaining_candidates(x, y) == 1 {
                    let value = self.cells[x][y].to_result();
                    if gameboard.cell(x, y) != value {
                        changes_made = true;
                    }
                    gameboard.set_cell(x, y, value);
                }
                proof {
                    assert(gameboard@[x as int][y as int] == target[x as int][y as int]);
                    if target[x as int][y as int] != before[x as int][y as int] {
                        assert(differ_before(target, before, x as int, y + 1));
                    }
                    if was {
                        let (i, j) = choose|i: int, j: int|
                            0 <= i < target.len() && 0 <= j < target[i].len() && (i < x || (i == x
                                && j < y)) && (#[trigger] target[i][j]) != before[i][j];
                        assert(target[i][j] != before[i][j]);
                        assert(differ_before(target, before, x as int, y + 1));
                    }
                }
            }
            proof {
                if changes_made {
                    let (i, j) = choose|i: int, j: int|
                        0 <= i < target.len() && 0 <= j < target[i].len() && (i < x || (i == x && j
                            < Y)) && (#[trigger] target[i][j]) != before[i][j];
                    assert(target[i][j] != before[i][j]);
                    assert(differ_before(target, before, x + 1, 0));
                }
            }
        }
        proof {
            assert forall|i: int| 0 <= i < X implies #[trigger] gameboard@[i] =~= target[i] by {
                assert forall|j: int| 0 <= j < Y implies gameboard@[i][j] == target[i][j] by {}
            }
            assert(gameboard@ =~= target);
            if changes_made {
                let (i, j) = choose|i: int, j: int|
                    0 <= i < target.len() && 0 <= j < target[i].len() && (i < X || (i == X && j
                        < 0)) && (#[trigger] target[i][j]) != before[i][j];
                assert(target[i][j] != before[i][j]);
            }
            if target != before {
                if !differ_before(target, before, X as int, 0) {
                    assert forall|i: int| 0 <= i < X implies #[trigger] target[i] =~= before[i] by {
                        assert forall|j: int| 0 <= j < Y implies target[i][j] == before[i][j] by {}
                    }
                    assert(target =~= before);
                }
            }
            assert forall|x: int, y: int| 0 <= x < X && 0 <= y < Y && popcount(
                #[trigger] self@[x][y],
            ) == 1 implies allows(self@[x][y], gameboard@[x][y]) && value_bit(gameboard@[x][y])
                == self@[x][y] by {
                lemma_single_bit(self@[x][y]);
            }
            if self.wf() && in_range(before) {
                assert forall|x: int, y: int| 0 <= x < X && 0 <= y < Y implies (
                #[trigger] gameboard@[x][y]) <= 9 by {
                    if popcount(self@[x][y]) == 1 {
                        lemma_single_bit(self@[x][y]);
                    } else {
                        assert(before[x][y] <= 9);
                    }
                }
            }
        }
        changes_made
    }

    /// Takes `candidate` out of the values possible at row `x`, column `y`.
    pub fn exclude_candidate(&mut self, x: usize, y: usize, candidate: u8)
        requires
            x < X,
            y < Y,
            is_value(candidate),
        ensures
            final(self)@ == with_cell(
                old(self)@,
                x as int,
                y as int,
                old(self)@[x as int][y as int] & !value_bit(candidate),
            ),
            old(self).wf() ==> final(self).wf(),
    {
        let mask = candidate.to_cell_mask();
        self.cells[x][y] &= !mask;
        proof {
            lemma_exclude(old(self)@[x as int][y as int], candidate);
            let after = self@;
            let cell = old(self)@[x as int][y as int] & !value_bit(candidate);
            let expected = with_cell(old(self)@, x as int, y as int, cell);
            assert forall|i: int| 0 <= i < X implies #[trigger] after[i] =~= expected[i] by {}
            assert(after =~= expected);
        }
    }

    /// Leaves `candidate` as the only value possible at row `x`, column `y`.
    pub fn set_exclusive_candidate(&mut self, x: usize, y: usize, candidate: u8)
        requires
            x < X,
            y < Y,
            is_value(candidate),
        ensures
            final(self)@ == with_cell(old(self)@, x as int, y as int, value_bit(candidate)),
            old(self).wf() ==> final(self).wf(),
    {
        self.cells[x][y] = candidate.to_cell_mask();
        proof {
            lemma_value_bit(candidate);
            let after = self@;
            let expected = with_cell(old(self)@, x as int, y as int, value_bit(candidate));
            assert forall|i: int| 0 <= i < X implies #[trigger] after[i] =~= expected[i] by {}
            assert(after =~= expected);
        }
    }

    /// The number of values still possible at row `x`, column `y`.
    pub fn remaining_candidates(&self, x: usize, y: usize) -> (remaining: u32)
        requires
            x < X,
            y < Y,
        ensures
            remaining == popcount(self@[x as int][y as int]),
    {
        self.cells[x][y].count_ones()
    }

    /// Leaves no value possible at row `x`, column `y`: the cell needs no
    /// further deduction.
    pub fn mark_as_solved(&mut self, x: usize, y: usize)
        requires
            x < X,
            y < Y,
        ensures
            final(self)@ == with_cell(old(self)@, x as int, y as int, 0u16),
            old(self).wf() ==> final(self).wf(),
    {
        self.cells[x][y] = 0;
        proof {
            let after = self@;
            let expected = with_cell(old(self)@, x as int, y as int, 0u16);
            assert forall|i: int| 0 <= i < X implies #[trigger] after[i] =~= expected[i] by {}
            assert(after =~= expected);
        }
    }
}

} // verus!

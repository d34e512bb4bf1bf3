use crate::board::Gameboard;
use crate::candidates::{all_masks, narrowed, Candidates};
use crate::mask::{is_submask, lemma_submask_chain, popcount};
use vstd::prelude::*;

verus! {

/// The masks after every solved cell of `grid` has lost all its candidates.
pub open spec fn exclude_solved(grid: Seq<Seq<u8>>, masks: Seq<Seq<u16>>) -> Seq<Seq<u16>> {
    Seq::new(
        masks.len(),
        |x: int|
            Seq::new(
                masks[x].len(),
                |y: int|
                    if grid[x][y] != 0 {
                        0u16
                    } else {
                        masks[x][y]
                    },
            ),
    )
}

/// Marking the solved cells leaves masks well formed and gives no cell a
/// candidate.
pub proof fn lemma_exclude_solved_narrows(grid: Seq<Seq<u8>>, masks: Seq<Seq<u16>>)
    ensures
        narrowed(masks, exclude_solved(grid, masks)),
        all_masks(masks) ==> all_masks(exclude_solved(grid, masks)),
{
    let after = exclude_solved(grid, masks);
    assert forall|x: int, y: int| 0 <= x < masks.len() && 0 <= y < masks[x].len() implies is_submask(
        #[trigger] after[x][y],
        masks[x][y],
    ) by {
        lemma_submask_chain(masks[x][y], 0, 0);
        assert(is_submask(0u16, masks[x][y])) by (bit_vector);
    }
}

/// The rule that clears the candidates of every cell that already has a value.
pub struct ExcludeWhenSolved;

impl ExcludeWhenSolved {
    /// Marks every cell that has a value as solved.
    pub fn visit<const X: usize, const Y: usize>(
        &self,
        gameboard: &Gameboard<X, Y>,
        candidates: &mut Candidates<X, Y>,
    )
        ensures
            final(candidates)@ == exclude_solved(gameboard@, old(candidates)@),
            forall|x: int, y: int|
                0 <= x < X && 0 <= y < Y && gameboard@[x][y] != 0 ==> popcount(
                    #[trigger] final(candidates)@[x][y],
                ) == 0,
            narrowed(old(candidates)@, final(candidates)@),
            old(candidates).wf() ==> final(candidates).wf(),
    {
        let ghost before = candidates@;
        let ghost target = exclude_solved(gameboard@, before);
        for x in 0..X
            invariant
                target == exclude_solved(gameboard@, before),
                before.len() == X,
                forall|i: int| 0 <= i < X ==> (#[trigger] before[i]).len() == Y,
                old(candidates).wf() ==> candidates.wf(),
                forall|i: int, j: int|
                    0 <= i < X && 0 <= j < Y ==> (#[trigger] candidates@[i][j]) == (if i < x {
                        target[i][j]
                    } else {
                        before[i][j]
                    }),
        {
            for y in 0..Y
                invariant
                    x < X,
                    target == exclude_solved(gameboard@, before),
                    before.len() == X,
                    forall|i: int| 0 <= i < X ==> (#[trigger] before[i]).len() == Y,
                    old(candidates).wf() ==> candidates.wf(),
                    forall|i: int, j: int|
                        0 <= i < X && 0 <= j < Y ==> (#[trigger] candidates@[i][j]) == (if i < x
                            || (i == x && j < y) {
                            target[i][j]
                        } else {
                            before[i][j]
                        }),
            {
                if gameboard.cell(x, y) != 0 {
                    candidates.mark_as_solved(x, y);
                }
            }
        }
        proof {
            assert forall|i: int| 0 <= i < X implies #[trigger] candidates@[i] =~= target[i] by {
                assert forall|j: int| 0 <= j < Y implies candidates@[i][j] == target[i][j] by {}
            }
            assert(candidates@ =~= target);
            assert(popcount(0u16) == 0) by (bit_vector);
            lemma_exclude_solved_narrows(gameboard@, before);
        }
    }
}

} // verus!

use crate::board::{has_shape, with_cell, Gameboard};
use crate::candidates::{all_masks, lemma_narrowed_chain, narrowed, Candidates};
use crate::mask::{
    allows, is_value, lemma_allowed_bit, lemma_exclude, lemma_single_candidate, lemma_value_bit,
    popcount, value_bit, ToCellMask,
};
use crate::region::{on_grid, Region};
use std::rc::Rc;
use vstd::prelude::*;

verus! {

/// Whether the cell at index `i` of `region` still has `v` as a candidate.
pub open spec fn holds(masks: Seq<Seq<u16>>, region: Seq<(usize, usize)>, i: int, v: u8) -> bool {
    allows(masks[region[i].0 as int][region[i].1 as int], v)
}

/// Whether index `i` is the only index of `region` whose cell still has `v`
/// as a candidate.
pub open spec fn sole_holder(
    masks: Seq<Seq<u16>>,
    region: Seq<(usize, usize)>,
    v: u8,
    i: int,
) -> bool {
    &&& 0 <= i < region.len()
    &&& holds(masks, region, i, v)
    &&& forall|j: int| 0 <= j < region.len() && #[trigger] holds(masks, region, j, v) ==> j == i
}

/// The masks after the hidden single of `v` in `region`, if there is one, has
/// been filled in: where exactly one position of the region still has `v` as
/// a candidate, `v` becomes the only candidate of that cell. Nothing changes
/// where no position or more than one has it.
pub open spec fn fill_value(
    masks: Seq<Seq<u16>>,
    region: Seq<(usize, usize)>,
    v: u8,
) -> Seq<Seq<u16>> {
    if exists|i: int| sole_holder(masks, region, v, i) {
        let i = choose|i: int| sole_holder(masks, region, v, i);
        with_cell(masks, region[i].0 as int, region[i].1 as int, value_bit(v))
    } else {
        masks
    }
}

/// The masks after the hidden singles of the values `1..=n` in `region` have
/// been filled in, one value after the other.
pub open spec fn fill_values(
    masks: Seq<Seq<u16>>,
    region: Seq<(usize, usize)>,
    n: int,
) -> Seq<Seq<u16>>
    decreases n,
{
    if n <= 0 {
        masks
    } else {
        fill_value(fill_values(masks, region, n - 1), region, n as u8)
    }
}

/// The masks after the hidden singles of all nine values in `region` have
/// been filled in, from value 1 to value 9.
pub open spec fn fill_region(masks: Seq<Seq<u16>>, region: Seq<(usize, usize)>) -> Seq<Seq<u16>> {
    fill_values(masks, region, 9)
}

/// The cell of a hidden single is left with exactly one candidate, the value
/// of the hidden single, and every other cell is left as it was.
pub proof fn lemma_fill_value_single(
    masks: Seq<Seq<u16>>,
    region: Seq<(usize, usize)>,
    v: u8,
    i: int,
    rows: nat,
    cols: nat,
)
    requires
        is_value(v),
        has_shape(masks, rows, cols),
        on_grid(region, rows, cols),
        sole_holder(masks, region, v, i),
    ensures
        fill_value(masks, region, v) == with_cell(
            masks,
            region[i].0 as int,
            region[i].1 as int,
            value_bit(v),
        ),
        popcount(fill_value(masks, region, v)[region[i].0 as int][region[i].1 as int]) == 1,
        allows(fill_value(masks, region, v)[region[i].0 as int][region[i].1 as int], v),
{
    let chosen = choose|j: int| sole_holder(masks, region, v, j);
    assert(holds(masks, region, i, v));
    assert(chosen == i);
    lemma_value_bit(v);
}

/// A cell with exactly one candidate keeps it when a hidden single is
/// filled in.
pub proof fn lemma_fill_value_keeps_single(
    masks: Seq<Seq<u16>>,
    region: Seq<(usize, usize)>,
    v: u8,
    x: int,
    y: int,
    rows: nat,
    cols: nat,
)
    requires
        is_value(v),
        has_shape(masks, rows, cols),
        on_grid(region, rows, cols),
        0 <= x < rows,
        0 <= y < cols,
        popcount(masks[x][y]) == 1,
    ensures
        fill_value(masks, region, v)[x][y] == masks[x][y],
{
    if exists|i: int| sole_holder(masks, region, v, i) {
        let i = choose|i: int| sole_holder(masks, region, v, i);
        if region[i].0 == x && region[i].1 == y {
            lemma_single_candidate(masks[x][y], v);
        }
    }
}

/// Filling in a hidden single leaves masks well formed and gives no cell a
/// candidate.
pub proof fn lemma_fill_value_narrows(
    masks: Seq<Seq<u16>>,
    region: Seq<(usize, usize)>,
    v: u8,
    rows: nat,
    cols: nat,
)
    requires
        is_value(v),
        has_shape(masks, rows, cols),
        on_grid(region, rows, cols),
    ensures
        has_shape(fill_value(masks, region, v), rows, cols),
        narrowed(masks, fill_value(masks, region, v)),
        all_masks(masks) ==> all_masks(fill_value(masks, region, v)),
{
    lemma_narrowed_chain(masks, masks, masks);
    if exists|i: int| sole_holder(masks, region, v, i) {
        let i = choose|i: int| sole_holder(masks, region, v, i);
        let (px, py) = region[i];
        lemma_allowed_bit(masks[px as int][py as int], v);
        lemma_value_bit(v);
    }
}

/// Filling in the hidden singles of several values leaves masks well formed
/// and gives no cell a candidate.
pub proof fn lemma_fill_values_narrows(
    masks: Seq<Seq<u16>>,
    region: Seq<(usize, usize)>,
    n: int,
    rows: nat,
    cols: nat,
)
    requires
        n <= 9,
        has_shape(masks, rows, cols),
        on_grid(region, rows, cols),
    ensures
        has_shape(fill_values(masks, region, n), rows, cols),
        narrowed(masks, fill_values(masks, region, n)),
        all_masks(masks) ==> all_masks(fill_values(masks, region, n)),
    decreases n,
{
    if n <= 0 {
        lemma_narrowed_chain(masks, masks, masks);
    } else {
        let mid = fill_values(masks, region, n - 1);
        lemma_fill_values_narrows(masks, region, n - 1, rows, cols);
        lemma_fill_value_narrows(mid, region, n as u8, rows, cols);
        lemma_narrowed_chain(masks, mid, fill_value(mid, region, n as u8));
    }
}

/// The rule of the hidden single: a value that only one cell of a region can
/// still hold is the value of that cell.
pub struct FillRegionUniquely(pub Rc<Region>);

impl FillRegionUniquely {
    /// The positions of the region the rule watches over.
    pub open spec fn region(&self) -> Seq<(usize, usize)> {
        self.0@
    }

    /// For each value from 1 to 9 in turn: where exactly one position of the
    /// region still has the value as a candidate, makes it the only candidate
    /// of that cell.
    pub fn visit<const X: usize, const Y: usize>(
        &self,
        _gameboard: &Gameboard<X, Y>,
        candidates: &mut Candidates<X, Y>,
    )
        requires
            on_grid(self.region(), X as nat, Y as nat),
        ensures
            final(candidates)@ == fill_region(old(candidates)@, self.region()),
            narrowed(old(candidates)@, final(candidates)@),
            old(candidates).wf() ==> final(candidates).wf(),
    {
        let ghost before = candidates@;
        let ghost region = self.region();
        let len = self.0.len();
        for n in 1u8..10
            invariant
                len == region.len(),
                region == self.region(),
                on_grid(region, X as nat, Y as nat),
                candidates@ == fill_values(before, region, n - 1),
        {
            let ghost mid = candidates@;
            let bit = n.to_cell_mask();
            let mut solo_position: Option<(usize, usize)> = None;
            let mut contested = false;
            let ghost mut solo_index: int = 0;
            let ghost mut other_index: int = 0;
            let mut j: usize = 0;
            while j < len && !contested
                invariant
                    j <= len,
                    len == region.len(),
                    region == self.region(),
                    on_grid(region, X as nat, Y as nat),
                    is_value(n),
                    bit == value_bit(n),
                    candidates@ == mid,
                    !contested && solo_position is None ==> forall|i: int|
                        0 <= i < j ==> !#[trigger] holds(mid, region, i, n),
                    !contested ==> (solo_position matches Some(p) ==> 0 <= solo_index < j
                        && region[solo_index] == p && holds(mid, region, solo_index, n)
                        && forall|i: int|
                        0 <= i < j && #[trigger] holds(mid, region, i, n) ==> i == solo_index),
                    contested ==> 0 <= solo_index < len && 0 <= other_index < len && solo_index
                        != other_index && holds(mid, region, solo_index, n) && holds(
                        mid,
                        region,
                        other_index,
                        n,
                    ),
                decreases len - j + (if contested { 0int } else { 1int }),
            {
                let (x, y) = self.0.position(j);
                if candidates.mask(x, y) & bit > 0 {
                    if solo_position.is_some() {
                        contested = true;
                        proof {
                            other_index = j as int;
                        }
                    } else {
                        solo_position = Some((x, y));
                        proof {
                            solo_index = j as int;
                        }
                    }
                }
                j += 1;
            }

            if !contested {
                if let Some((x, y)) = solo_position {
                    let ghost target = with_cell(mid, x as int, y as int, value_bit(n));
                    assert(sole_holder(mid, region, n, solo_index));
                    for k in 0..len
                        invariant
                            len == region.len(),
                            region == self.region(),
                            on_grid(region, X as nat, Y as nat),
                            is_value(n),
                            has_shape(mid, X as nat, Y as nat),
                            sole_holder(mid, region, n, solo_index),
                            region[solo_index] == (x, y),
                            target == with_cell(mid, x as int, y as int, value_bit(n)),
                            candidates@ == (if k > solo_index {
                                target
                            } else {
                                mid
                            }),
                    {
                        let (x2, y2) = self.0.position(k);
                        let ghost cur = candidates@;
                        if x2 == x && y2 == y {
                            assert(holds(mid, region, k as int, n));
                            candidates.set_exclusive_candidate(x2, y2, n);
                        } else {
                            assert(!holds(mid, region, k as int, n));
                            candidates.exclude_candidate(x2, y2, n);
                            proof {
                                lemma_exclude(mid[x2 as int][y2 as int], n);
                                assert(candidates@[x2 as int] =~= cur[x2 as int]);
                                assert(candidates@ =~= cur);
                            }
                        }
                    }
                }
            }
            proof {
                let next = fill_value(mid, region, n);
                if contested {
                    assert(!exists|i: int| sole_holder(mid, region, n, i));
                } else if solo_position is None {
                    assert(!exists|i: int| sole_holder(mid, region, n, i));
                } else {
                    assert(sole_holder(mid, region, n, solo_index));
                    let i = choose|i: int| sole_holder(mid, region, n, i);
                    assert(i == solo_index);
                }
                assert(candidates@ == next);
            }
        }
        proof {
            lemma_fill_values_narrows(before, region, 9, X as nat, Y as nat);
        }
    }
}

} // verus!

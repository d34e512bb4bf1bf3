use crate::board::{has_shape, in_range, Gameboard};
use crate::candidates::{all_masks, narrowed, Candidates};
use crate::mask::{
    allows, is_mask, is_submask, is_value, lemma_allows, lemma_exclude_bits, lemma_value_bit,
    value_bit,
};
use crate::region::{lemma_lies_in_step, lies_in, on_grid, value_at, Region};
use std::rc::Rc;
use vstd::prelude::*;

verus! {

/// The bits of the values that `grid` holds in the first `k` cells of
/// `region`, the cell at row `x`, column `y` left aside.
pub open spec fn peer_bits(
    grid: Seq<Seq<u8>>,
    region: Seq<(usize, usize)>,
    k: int,
    x: int,
    y: int,
) -> u16
    decreases k,
{
    if k <= 0 {
        0
    } else {
        let (px, py) = region[k - 1];
        let rest = peer_bits(grid, region, k - 1, x, y);
        let value = grid[px as int][py as int];
        if (px != x || py != y) && value != 0 {
            rest | value_bit(value)
        } else {
            rest
        }
    }
}

/// Whether `grid` holds the value `v` in one of the first `k` cells of
/// `region`, the cell at row `x`, column `y` left aside.
pub open spec fn peer_has(
    grid: Seq<Seq<u8>>,
    region: Seq<(usize, usize)>,
    k: int,
    x: int,
    y: int,
    v: u8,
) -> bool {
    exists|a: int|
        0 <= a < k && (region[a].0 != x || region[a].1 != y) && #[trigger] value_at(grid, region, a)
            == v
}

/// The bits of the peers of a cell are the bits of the values that its
/// peers hold.
pub proof fn lemma_peer_bits(
    grid: Seq<Seq<u8>>,
    region: Seq<(usize, usize)>,
    k: int,
    x: int,
    y: int,
    v: u8,
    rows: nat,
    cols: nat,
)
    requires
        is_value(v),
        has_shape(grid, rows, cols),
        in_range(grid),
        on_grid(region, rows, cols),
        k <= region.len(),
    ensures
        allows(peer_bits(grid, region, k, x, y), v) <==> peer_has(grid, region, k, x, y, v),
    decreases k,
{
    if k <= 0 {
        lemma_allows(0, 0, v);
    } else {
        lemma_peer_bits(grid, region, k - 1, x, y, v, rows, cols);
        let (px, py) = region[k - 1];
        let rest = peer_bits(grid, region, k - 1, x, y);
        let value = grid[px as int][py as int];
        assert(value == value_at(grid, region, k - 1));
        if peer_has(grid, region, k - 1, x, y, v) {
            let a = choose|a: int|
                0 <= a < k - 1 && (region[a].0 != x || region[a].1 != y) && #[trigger] value_at(
                    grid,
                    region,
                    a,
                ) == v;
            assert(0 <= a < k && value_at(grid, region, a) == v);
        }
        if (px != x || py != y) && value != 0 {
            assert(value <= 9);
            lemma_allows(rest, value_bit(value), v);
            lemma_value_bit(value);
            if value == v {
                assert(peer_has(grid, region, k, x, y, v));
            }
        }
        if peer_has(grid, region, k, x, y, v) {
            let a = choose|a: int|
                0 <= a < k && (region[a].0 != x || region[a].1 != y) && #[trigger] value_at(
                    grid,
                    region,
                    a,
                ) == v;
            if a < k - 1 {
                assert(peer_has(grid, region, k - 1, x, y, v));
            }
        }
    }
}

/// The masks after every cell of `region` has lost the values that `grid`
/// holds in the first `k` cells of the region, the cell itself left aside.
pub open spec fn prune(
    grid: Seq<Seq<u8>>,
    region: Seq<(usize, usize)>,
    k: int,
    masks: Seq<Seq<u16>>,
) -> Seq<Seq<u16>> {
    Seq::new(
        masks.len(),
        |x: int|
            Seq::new(
                masks[x].len(),
                |y: int|
                    if lies_in(region, region.len() as int, x, y) {
                        masks[x][y] & !peer_bits(grid, region, k, x, y)
                    } else {
                        masks[x][y]
                    },
            ),
    )
}

/// The masks after every cell of `region` has lost the values that `grid`
/// holds in the other cells of the region.
pub open spec fn prune_region(
    grid: Seq<Seq<u8>>,
    region: Seq<(usize, usize)>,
    masks: Seq<Seq<u16>>,
) -> Seq<Seq<u16>> {
    prune(grid, region, region.len() as int, masks)
}

/// The masks after the value `v` has been taken out of every cell among the
/// first `k` positions of `region` but the cell at row `px`, column `py`.
spec fn exclude_around(
    masks: Seq<Seq<u16>>,
    region: Seq<(usize, usize)>,
    k: int,
    px: int,
    py: int,
    v: u8,
) -> Seq<Seq<u16>> {
    Seq::new(
        masks.len(),
        |x: int|
            Seq::new(
                masks[x].len(),
                |y: int|
                    if lies_in(region, k, x, y) && (x != px || y != py) {
                        masks[x][y] & !value_bit(v)
                    } else {
                        masks[x][y]
                    },
            ),
    )
}

/// Pruning by no cell at all changes nothing, and so does taking a value out
/// of the cells among no positions.
proof fn lemma_prune_start(
    grid: Seq<Seq<u8>>,
    region: Seq<(usize, usize)>,
    masks: Seq<Seq<u16>>,
    px: int,
    py: int,
    v: u8,
)
    ensures
        prune(grid, region, 0, masks) == masks,
        exclude_around(masks, region, 0, px, py, v) == masks,
{
    let pruned = prune(grid, region, 0, masks);
    let excluded = exclude_around(masks, region, 0, px, py, v);
    assert forall|x: int| 0 <= x < masks.len() implies #[trigger] pruned[x] =~= masks[x] by {
        assert forall|y: int| 0 <= y < masks[x].len() implies pruned[x][y] == masks[x][y] by {
            lemma_exclude_bits(masks[x][y], 0, 0);
        }
    }
    assert forall|x: int| 0 <= x < masks.len() implies #[trigger] excluded[x] =~= masks[x] by {}
    assert(pruned =~= masks);
    assert(excluded =~= masks);
}

/// Pruning by one more cell of the region takes the value of that cell, if it
/// has one, out of the other cells of the region.
proof fn lemma_prune_step(
    grid: Seq<Seq<u8>>,
    region: Seq<(usize, usize)>,
    k: int,
    masks: Seq<Seq<u16>>,
)
    requires
        0 <= k < region.len(),
    ensures
        prune(grid, region, k + 1, masks) == (if grid[region[k].0 as int][region[k].1 as int] != 0 {
            exclude_around(
                prune(grid, region, k, masks),
                region,
                region.len() as int,
                region[k].0 as int,
                region[k].1 as int,
                grid[region[k].0 as int][region[k].1 as int],
            )
        } else {
            prune(grid, region, k, masks)
        }),
{
    let (px, py) = region[k];
    let value = grid[px as int][py as int];
    let before = prune(grid, region, k, masks);
    let after = prune(grid, region, k + 1, masks);
    let expected = if value != 0 {
        exclude_around(before, region, region.len() as int, px as int, py as int, value)
    } else {
        before
    };
    assert forall|x: int| 0 <= x < masks.len() implies #[trigger] after[x] =~= expected[x] by {
        assert forall|y: int| 0 <= y < masks[x].len() implies after[x][y] == expected[x][y] by {
            lemma_exclude_bits(masks[x][y], peer_bits(grid, region, k, x, y), value_bit(value));
        }
    }
    assert(after =~= expected);
}

/// Pruning leaves masks well formed and gives no cell a candidate.
pub proof fn lemma_prune_narrows(
    grid: Seq<Seq<u8>>,
    region: Seq<(usize, usize)>,
    k: int,
    masks: Seq<Seq<u16>>,
)
    ensures
        narrowed(masks, prune(grid, region, k, masks)),
        all_masks(masks) ==> all_masks(prune(grid, region, k, masks)),
{
    let after = prune(grid, region, k, masks);
    assert forall|x: int, y: int| 0 <= x < masks.len() && 0 <= y < masks[x].len() implies is_submask(
        #[trigger] after[x][y],
        masks[x][y],
    ) && (is_mask(masks[x][y]) ==> is_mask(after[x][y])) by {
        lemma_exclude_bits(masks[x][y], peer_bits(grid, region, k, x, y), 0);
        lemma_exclude_bits(masks[x][y], 0, 0);
    }
}

/// The rule that lets no value stand twice in a region: the value of each
/// solved cell is no candidate for the other cells of the region.
pub struct UniqueByRegion(pub Rc<Region>);

impl UniqueByRegion {
    /// The positions of the region the rule watches over.
    pub open spec fn region(&self) -> Seq<(usize, usize)> {
        self.0@
    }

    /// Takes the value of every solved cell of the region out of the
    /// candidates of the other cells of the region.
    pub fn visit<const X: usize, const Y: usize>(
        &self,
        gameboard: &Gameboard<X, Y>,
        candidates: &mut Candidates<X, Y>,
    )
        requires
            on_grid(self.region(), X as nat, Y as nat),
            gameboard.wf(),
        ensures
            final(candidates)@ == prune_region(gameboard@, self.region(), old(candidates)@),
            forall|x: int, y: int, v: u8|
                0 <= x < X && 0 <= y < Y && is_value(v) ==> (#[trigger] allows(
                    final(candidates)@[x][y],
                    v,
                ) <==> allows(old(candidates)@[x][y], v) && !(lies_in(
                    self.region(),
                    self.region().len() as int,
                    x,
                    y,
                ) && peer_has(gameboard@, self.region(), self.region().len() as int, x, y, v))),
            narrowed(old(candidates)@, final(candidates)@),
            old(candidates).wf() ==> final(candidates).wf(),
    {
        let ghost before = candidates@;
        let ghost region = self.region();
        let len = self.0.len();
        proof {
            lemma_prune_start(gameboard@, region, before, 0, 0, 0);
        }
        for i in 0..len
            invariant
                len == region.len(),
                region == self.region(),
                on_grid(region, X as nat, Y as nat),
                gameboard.wf(),
                candidates@ == prune(gameboard@, region, i as int, before),
        {
            let (x, y) = self.0.position(i);
            let value = gameboard.cell(x, y);
            let ghost mid = candidates@;
            if value != 0 {
                proof {
                    lemma_prune_start(gameboard@, region, mid, x as int, y as int, value);
                }
                for j in 0..len
                    invariant
                        len == region.len(),
                        region == self.region(),
                        on_grid(region, X as nat, Y as nat),
                        x < X,
                        y < Y,
                        is_value(value),
                        has_shape(mid, X as nat, Y as nat),
                        candidates@ == exclude_around(mid, region, j as int, x as int, y as int, value),
                {
                    let (x2, y2) = self.0.position(j);
                    if x2 != x || y2 != y {
                        candidates.exclude_candidate(x2, y2, value);
                    }
                    proof {
                        let next = exclude_around(mid, region, j + 1, x as int, y as int, value);
                        assert forall|a: int| 0 <= a < X implies #[trigger] candidates@[a] =~= next[a] by {
                            assert forall|b: int| 0 <= b < Y implies candidates@[a][b] == next[a][b] by {
                                lemma_lies_in_step(region, j as int, a, b);
                                lemma_exclude_bits(mid[a][b], value_bit(value), 0);
                            }
                        }
                        assert(candidates@ =~= next);
                    }
                }
            }
            proof {
                lemma_prune_step(gameboard@, region, i as int, before);
            }
        }
        proof {
            lemma_prune_narrows(gameboard@, region, len as int, before);
            assert forall|x: int, y: int, v: u8| 0 <= x < X && 0 <= y < Y && is_value(v) implies (
            #[trigger] allows(candidates@[x][y], v) <==> allows(before[x][y], v) && !(lies_in(
                region,
                len as int,
                x,
                y,
            ) && peer_has(gameboard@, region, len as int, x, y, v))) by {
                lemma_peer_bits(gameboard@, region, len as int, x, y, v, X as nat, Y as nat);
                lemma_allows(before[x][y], peer_bits(gameboard@, region, len as int, x, y), v);
            }
        }
    }
}

} // verus!

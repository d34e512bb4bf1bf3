use crate::board::{has_shape, in_range, uniform};
use crate::candidates::{all_masks, lemma_resolve_in_range, narrowed, resolve};
use crate::exclude_when_solved::exclude_solved;
use crate::fill_region_uniquely::{
    fill_value, fill_values, holds, lemma_fill_values_narrows, sole_holder,
};
use crate::mask::{
    allows, is_submask, is_value, lemma_allows, lemma_exclude_bits, lemma_single_bit,
    lemma_single_candidate, lemma_submask, lemma_value_bit, popcount, ALL_CANDIDATES,
};
use crate::region::{lies_in, on_grid, region_9x9, value_at};
use crate::rules::{lemma_rules_9x9_fit, rules_9x9, rules_fit, RuleView};
use crate::solver::{after_passes, apply_rules, lemma_apply_rules_narrows};
use crate::unique_by_region::{lemma_peer_bits, peer_bits, peer_has, prune_region};
use vstd::prelude::*;

verus! {

/// Whether `grid` holds the value `v` somewhere in `region`.
pub open spec fn occurs(grid: Seq<Seq<u8>>, region: Seq<(usize, usize)>, v: u8) -> bool {
    exists|i: int| 0 <= i < region.len() && #[trigger] value_at(grid, region, i) == v
}

/// Whether `grid` holds no value twice in `region`: two positions of the
/// region that hold the same value are the same cell.
pub open spec fn no_value_twice(grid: Seq<Seq<u8>>, region: Seq<(usize, usize)>) -> bool {
    forall|i: int, j: int|
        0 <= i < region.len() && 0 <= j < region.len() && region[i] != region[j] && value_at(
            grid,
            region,
            i,
        ) != 0 && value_at(grid, region, j) != 0 ==> #[trigger] value_at(grid, region, i)
            != #[trigger] value_at(grid, region, j)
}

/// Whether the completed grid `solution` gives the cells of `region` each
/// value `1..=9` exactly once.
pub open spec fn solves_region(solution: Seq<Seq<u8>>, region: Seq<(usize, usize)>) -> bool {
    &&& no_value_twice(solution, region)
    &&& forall|v: u8| is_value(v) ==> #[trigger] occurs(solution, region, v)
}

/// Whether `solution` is a completed grid of `rows` rows and `cols` columns
/// that gives the region of every rule each value exactly once.
pub open spec fn is_solution(solution: Seq<Seq<u8>>, rules: Seq<RuleView>, rows: nat, cols: nat) -> bool {
    &&& has_shape(solution, rows, cols)
    &&& forall|x: int, y: int|
        0 <= x < rows && 0 <= y < cols ==> is_value(#[trigger] solution[x][y])
    &&& forall|k: int|
        0 <= k < rules.len() && !((#[trigger] rules[k]) is ExcludeWhenSolved) ==> solves_region(
            solution,
            rules[k].region(),
        )
}

/// Whether the cell at row `x`, column `y` fits `solution`: its value, if
/// it has one, is that of the solution; its candidates, if it has any, hold
/// the value of the solution; and it has no candidates only if it has a value.
pub open spec fn cell_agrees(
    grid: Seq<Seq<u8>>,
    masks: Seq<Seq<u16>>,
    solution: Seq<Seq<u8>>,
    x: int,
    y: int,
) -> bool {
    &&& grid[x][y] != 0 ==> grid[x][y] == solution[x][y]
    &&& masks[x][y] != 0 ==> allows(masks[x][y], solution[x][y])
    &&& masks[x][y] == 0 ==> grid[x][y] != 0
}

/// Whether every cell of `grid` and `masks` fits `solution`.
pub open spec fn agrees(grid: Seq<Seq<u8>>, masks: Seq<Seq<u16>>, solution: Seq<Seq<u8>>) -> bool {
    forall|x: int, y: int|
        0 <= x < solution.len() && 0 <= y < solution[x].len() ==> #[trigger] cell_agrees(
            grid,
            masks,
            solution,
            x,
            y,
        )
}

/// Whether every Fill rule comes after a rule that lets no value stand twice
/// in the same region.
pub open spec fn fills_follow_pruning(rules: Seq<RuleView>) -> bool {
    forall|k: int|
        0 <= k < rules.len() && (#[trigger] rules[k]) is FillRegionUniquely ==> pruned_before(
            rules,
            k,
        )
}

/// Whether a rule before rule `k` lets no value stand twice in the region of
/// rule `k`.
pub open spec fn pruned_before(rules: Seq<RuleView>, k: int) -> bool {
    exists|j: int|
        0 <= j < k && (#[trigger] rules[j]) is UniqueByRegion && rules[j].region()
            == rules[k].region()
}

/// Whether no cell of `region` still has as a candidate a value that `grid`
/// holds in another cell of the region.
pub open spec fn is_pruned(
    grid: Seq<Seq<u8>>,
    region: Seq<(usize, usize)>,
    masks: Seq<Seq<u16>>,
) -> bool {
    forall|a: int, b: int|
        0 <= a < region.len() && 0 <= b < region.len() && region[a] != region[b] && value_at(
            grid,
            region,
            a,
        ) != 0 ==> !#[trigger] holds(masks, region, b, value_at(grid, region, a))
}

/// Narrowing keeps a region pruned.
pub proof fn lemma_narrowed_pruned(
    grid: Seq<Seq<u8>>,
    region: Seq<(usize, usize)>,
    masks: Seq<Seq<u16>>,
    after: Seq<Seq<u16>>,
    rows: nat,
    cols: nat,
)
    requires
        has_shape(grid, rows, cols),
        in_range(grid),
        has_shape(masks, rows, cols),
        on_grid(region, rows, cols),
        narrowed(masks, after),
        is_pruned(grid, region, masks),
    ensures
        is_pruned(grid, region, after),
{
    assert forall|a: int, b: int|
        0 <= a < region.len() && 0 <= b < region.len() && region[a] != region[b] && value_at(
            grid,
            region,
            a,
        ) != 0 implies !#[trigger] holds(after, region, b, value_at(grid, region, a)) by {
        let v = value_at(grid, region, a);
        let (x, y) = region[b];
        assert(!holds(masks, region, b, v));
        assert(grid[region[a].0 as int][region[a].1 as int] <= 9);
        assert(is_submask(after[x as int][y as int], masks[x as int][y as int]));
        lemma_allows(after[x as int][y as int], masks[x as int][y as int], v);
    }
}

/// Marking the solved cells keeps the cells fitting the solution.
pub proof fn lemma_exclude_solved_agrees(
    grid: Seq<Seq<u8>>,
    masks: Seq<Seq<u16>>,
    solution: Seq<Seq<u8>>,
    rows: nat,
    cols: nat,
)
    requires
        has_shape(grid, rows, cols),
        has_shape(masks, rows, cols),
        has_shape(solution, rows, cols),
        agrees(grid, masks, solution),
    ensures
        agrees(grid, exclude_solved(grid, masks), solution),
{
    let after = exclude_solved(grid, masks);
    assert forall|x: int, y: int|
        0 <= x < solution.len() && 0 <= y < solution[x].len() implies #[trigger] cell_agrees(
        grid,
        after,
        solution,
        x,
        y,
    ) by {
        assert(cell_agrees(grid, masks, solution, x, y));
    }
}

/// Where the solution holds no value twice in a region, taking the values
/// of the solved cells out of their peers keeps the cells fitting the
/// solution, and leaves the region pruned.
pub proof fn lemma_prune_agrees(
    grid: Seq<Seq<u8>>,
    region: Seq<(usize, usize)>,
    masks: Seq<Seq<u16>>,
    solution: Seq<Seq<u8>>,
    rows: nat,
    cols: nat,
)
    requires
        has_shape(grid, rows, cols),
        in_range(grid),
        has_shape(masks, rows, cols),
        has_shape(solution, rows, cols),
        forall|x: int, y: int| 0 <= x < rows && 0 <= y < cols ==> is_value(#[trigger] solution[x][y]),
        on_grid(region, rows, cols),
        no_value_twice(solution, region),
        agrees(grid, masks, solution),
    ensures
        agrees(grid, prune_region(grid, region, masks), solution),
        is_pruned(grid, region, prune_region(grid, region, masks)),
{
    let after = prune_region(grid, region, masks);
    let len = region.len() as int;
    assert forall|x: int, y: int|
        0 <= x < solution.len() && 0 <= y < solution[x].len() implies #[trigger] cell_agrees(
        grid,
        after,
        solution,
        x,
        y,
    ) by {
        assert(cell_agrees(grid, masks, solution, x, y));
        let v = solution[x][y];
        assert(is_value(v));
        if lies_in(region, len, x, y) {
            let b = choose|b: int| 0 <= b < len && (#[trigger] region[b]).0 == x && region[b].1 == y;
            let bits = peer_bits(grid, region, len, x, y);
            lemma_peer_bits(grid, region, len, x, y, v, rows, cols);
            lemma_allows(masks[x][y], bits, v);
            lemma_exclude_bits(masks[x][y], bits, 0);
            lemma_submask(masks[x][y] & !bits, masks[x][y]);
            if peer_has(grid, region, len, x, y, v) {
                let a = choose|a: int|
                    0 <= a < len && (region[a].0 != x || region[a].1 != y) && #[trigger] value_at(
                        grid,
                        region,
                        a,
                    ) == v;
                assert(cell_agrees(grid, masks, solution, region[a].0 as int, region[a].1 as int));
                assert(value_at(solution, region, a) == v);
                assert(value_at(solution, region, b) == v);
                assert(region[a] != region[b]);
                assert(false);
            }
            lemma_allows(0, 0, v);
        }
    }
    assert forall|a: int, b: int|
        0 <= a < region.len() && 0 <= b < region.len() && region[a] != region[b] && value_at(
            grid,
            region,
            a,
        ) != 0 implies !#[trigger] holds(after, region, b, value_at(grid, region, a)) by {
        let v = value_at(grid, region, a);
        let (x, y) = region[b];
        assert(grid[region[a].0 as int][region[a].1 as int] <= 9);
        assert(lies_in(region, len, x as int, y as int));
        assert(peer_has(grid, region, len, x as int, y as int, v));
        lemma_peer_bits(grid, region, len, x as int, y as int, v, rows, cols);
        lemma_allows(
            masks[x as int][y as int],
            peer_bits(grid, region, len, x as int, y as int),
            v,
        );
    }
}

/// In a pruned region that the solution fills with each value exactly
/// once, filling in a hidden single keeps the cells fitting the solution.
pub proof fn lemma_fill_value_agrees(
    grid: Seq<Seq<u8>>,
    region: Seq<(usize, usize)>,
    masks: Seq<Seq<u16>>,
    v: u8,
    solution: Seq<Seq<u8>>,
    rows: nat,
    cols: nat,
)
    requires
        is_value(v),
        has_shape(grid, rows, cols),
        has_shape(masks, rows, cols),
        has_shape(solution, rows, cols),
        on_grid(region, rows, cols),
        solves_region(solution, region),
        is_pruned(grid, region, masks),
        agrees(grid, masks, solution),
    ensures
        agrees(grid, fill_value(masks, region, v), solution),
{
    let after = fill_value(masks, region, v);
    if exists|i: int| sole_holder(masks, region, v, i) {
        let i = choose|i: int| sole_holder(masks, region, v, i);
        let (px, py) = region[i];
        assert(occurs(solution, region, v));
        let b = choose|b: int| 0 <= b < region.len() && #[trigger] value_at(solution, region, b) == v;
        let (qx, qy) = region[b];
        assert(cell_agrees(grid, masks, solution, qx as int, qy as int));
        lemma_allows(0, 0, v);
        if masks[qx as int][qy as int] != 0 {
            assert(holds(masks, region, b, v));
            assert(b == i);
        } else {
            assert(value_at(grid, region, b) == v);
            assert(region[b] != region[i]);
            assert(!holds(masks, region, i, value_at(grid, region, b)));
            assert(false);
        }
        lemma_value_bit(v);
        assert forall|x: int, y: int|
            0 <= x < solution.len() && 0 <= y < solution[x].len() implies #[trigger] cell_agrees(
            grid,
            after,
            solution,
            x,
            y,
        ) by {
            assert(cell_agrees(grid, masks, solution, x, y));
        }
    }
}

/// In a pruned region that the solution fills with each value exactly
/// once, filling in the hidden singles of several values keeps the cells
/// fitting the solution.
pub proof fn lemma_fill_values_agrees(
    grid: Seq<Seq<u8>>,
    region: Seq<(usize, usize)>,
    masks: Seq<Seq<u16>>,
    n: int,
    solution: Seq<Seq<u8>>,
    rows: nat,
    cols: nat,
)
    requires
        n <= 9,
        has_shape(grid, rows, cols),
        in_range(grid),
        has_shape(masks, rows, cols),
        has_shape(solution, rows, cols),
        on_grid(region, rows, cols),
        solves_region(solution, region),
        is_pruned(grid, region, masks),
        agrees(grid, masks, solution),
    ensures
        agrees(grid, fill_values(masks, region, n), solution),
    decreases n,
{
    if n > 0 {
        let mid = fill_values(masks, region, n - 1);
        lemma_fill_values_agrees(grid, region, masks, n - 1, solution, rows, cols);
        lemma_fill_values_narrows(masks, region, n - 1, rows, cols);
        lemma_narrowed_pruned(grid, region, masks, mid, rows, cols);
        lemma_fill_value_agrees(grid, region, mid, n as u8, solution, rows, cols);
    }
}

/// Giving the cells with one candidate their value keeps the cells fitting
/// the solution.
pub proof fn lemma_resolve_agrees(
    grid: Seq<Seq<u8>>,
    masks: Seq<Seq<u16>>,
    solution: Seq<Seq<u8>>,
    rows: nat,
    cols: nat,
)
    requires
        has_shape(grid, rows, cols),
        has_shape(masks, rows, cols),
        has_shape(solution, rows, cols),
        forall|x: int, y: int| 0 <= x < rows && 0 <= y < cols ==> is_value(#[trigger] solution[x][y]),
        agrees(grid, masks, solution),
    ensures
        agrees(resolve(grid, masks), masks, solution),
{
    let after = resolve(grid, masks);
    assert forall|x: int, y: int|
        0 <= x < solution.len() && 0 <= y < solution[x].len() implies #[trigger] cell_agrees(
        after,
        masks,
        solution,
        x,
        y,
    ) by {
        assert(cell_agrees(grid, masks, solution, x, y));
        assert(is_value(solution[x][y]));
        if popcount(masks[x][y]) == 1 {
            lemma_single_bit(masks[x][y]);
            lemma_single_candidate(masks[x][y], solution[x][y]);
        }
    }
}

/// The rules keep the cells fitting the solution, and once a rule has pruned
/// its region, the region stays pruned for the rest of the pass.
pub proof fn lemma_apply_rules_agrees(
    rules: Seq<RuleView>,
    k: int,
    grid: Seq<Seq<u8>>,
    masks: Seq<Seq<u16>>,
    solution: Seq<Seq<u8>>,
    rows: nat,
    cols: nat,
)
    requires
        k <= rules.len(),
        rules_fit(rules, rows, cols),
        fills_follow_pruning(rules),
        is_solution(solution, rules, rows, cols),
        has_shape(grid, rows, cols),
        in_range(grid),
        has_shape(masks, rows, cols),
        agrees(grid, masks, solution),
    ensures
        has_shape(apply_rules(rules, k, grid, masks), rows, cols),
        agrees(grid, apply_rules(rules, k, grid, masks), solution),
        forall|j: int|
            0 <= j < k && (#[trigger] rules[j]) is UniqueByRegion ==> is_pruned(
                grid,
                rules[j].region(),
                apply_rules(rules, k, grid, masks),
            ),
    decreases k,
{
    if k > 0 {
        let mid = apply_rules(rules, k - 1, grid, masks);
        let rule = rules[k - 1];
        let after = rule.effect(grid, mid);
        lemma_apply_rules_agrees(rules, k - 1, grid, masks, solution, rows, cols);
        assert(rule.fits(rows, cols));
        rule.lemma_effect_narrows(grid, mid, rows, cols);
        match rule {
            RuleView::ExcludeWhenSolved => {
                lemma_exclude_solved_agrees(grid, mid, solution, rows, cols);
            },
            RuleView::UniqueByRegion { .. } => {
                assert(solves_region(solution, rule.region()));
                lemma_prune_agrees(grid, rule.region(), mid, solution, rows, cols);
            },
            RuleView::FillRegionUniquely { .. } => {
                assert(solves_region(solution, rule.region()));
                assert(pruned_before(rules, k - 1));
                let j = choose|j: int|
                    0 <= j < k - 1 && (#[trigger] rules[j]) is UniqueByRegion && rules[j].region()
                        == rule.region();
                assert(is_pruned(grid, rules[j].region(), mid));
                lemma_fill_values_agrees(grid, rule.region(), mid, 9, solution, rows, cols);
            },
        }
        assert forall|j: int| 0 <= j < k && (#[trigger] rules[j]) is UniqueByRegion implies is_pruned(
            grid,
            rules[j].region(),
            after,
        ) by {
            if j < k - 1 {
                assert(rules[j].fits(rows, cols));
                lemma_narrowed_pruned(grid, rules[j].region(), mid, after, rows, cols);
            }
        }
    }
}

/// Every pass keeps the cells fitting the solution.
pub proof fn lemma_passes_agree(
    rules: Seq<RuleView>,
    grid: Seq<Seq<u8>>,
    masks: Seq<Seq<u16>>,
    solution: Seq<Seq<u8>>,
    n: nat,
    rows: nat,
    cols: nat,
)
    requires
        rules_fit(rules, rows, cols),
        fills_follow_pruning(rules),
        is_solution(solution, rules, rows, cols),
        has_shape(grid, rows, cols),
        in_range(grid),
        has_shape(masks, rows, cols),
        all_masks(masks),
        agrees(grid, masks, solution),
    ensures
        has_shape(after_passes(rules, grid, masks, n).0, rows, cols),
        in_range(after_passes(rules, grid, masks, n).0),
        has_shape(after_passes(rules, grid, masks, n).1, rows, cols),
        all_masks(after_passes(rules, grid, masks, n).1),
        agrees(
            after_passes(rules, grid, masks, n).0,
            after_passes(rules, grid, masks, n).1,
            solution,
        ),
    decreases n,
{
    if n > 0 {
        lemma_passes_agree(rules, grid, masks, solution, (n - 1) as nat, rows, cols);
        let before = after_passes(rules, grid, masks, (n - 1) as nat);
        let narrowed = apply_rules(rules, rules.len() as int, before.0, before.1);
        lemma_apply_rules_agrees(rules, rules.len() as int, before.0, before.1, solution, rows, cols);
        lemma_apply_rules_narrows(rules, rules.len() as int, before.0, before.1, rows, cols);
        lemma_resolve_agrees(before.0, narrowed, solution, rows, cols);
        lemma_resolve_in_range(before.0, narrowed);
    }
}

/// Where the givens can be completed to a grid that holds each value
/// exactly once in the region of every rule, and every Fill rule comes after
/// the rule that prunes its region, the passes never put a value twice into
/// the region of a rule: two solved cells of a region hold different values.
pub proof fn lemma_region_integrity(
    rules: Seq<RuleView>,
    grid: Seq<Seq<u8>>,
    masks: Seq<Seq<u16>>,
    solution: Seq<Seq<u8>>,
    n: nat,
    k: int,
    rows: nat,
    cols: nat,
)
    requires
        rules_fit(rules, rows, cols),
        fills_follow_pruning(rules),
        is_solution(solution, rules, rows, cols),
        has_shape(grid, rows, cols),
        in_range(grid),
        has_shape(masks, rows, cols),
        all_masks(masks),
        agrees(grid, masks, solution),
        0 <= k < rules.len(),
    ensures
        no_value_twice(after_passes(rules, grid, masks, n).0, rules[k].region()),
{
    lemma_passes_agree(rules, grid, masks, solution, n, rows, cols);
    let region = rules[k].region();
    let (found, held) = after_passes(rules, grid, masks, n);
    if !(rules[k] is ExcludeWhenSolved) {
        assert(solves_region(solution, region));
        assert(rules[k].fits(rows, cols));
        assert forall|i: int, j: int|
            0 <= i < region.len() && 0 <= j < region.len() && region[i] != region[j] && value_at(
                found,
                region,
                i,
            ) != 0 && value_at(found, region, j) != 0 implies #[trigger] value_at(found, region, i)
            != #[trigger] value_at(found, region, j) by {
            assert(cell_agrees(found, held, solution, region[i].0 as int, region[i].1 as int));
            assert(cell_agrees(found, held, solution, region[j].0 as int, region[j].1 as int));
            assert(value_at(solution, region, i) != value_at(solution, region, j));
        }
    }
}

/// In the rule set of a 9 by 9 grid every Fill rule comes after the rule
/// that prunes its region.
pub proof fn lemma_rules_9x9_guarded()
    ensures
        fills_follow_pruning(rules_9x9()),
{
    let rules = rules_9x9();
    assert forall|k: int|
        0 <= k < rules.len() && (#[trigger] rules[k]) is FillRegionUniquely implies pruned_before(
        rules,
        k,
    ) by {
        let j = k - 27;
        assert(0 <= j < k && rules[j] is UniqueByRegion && rules[j].region() == rules[k].region());
    }
}

/// Before the first pass, with every value possible in every cell, the cells
/// fit every completed grid that holds the givens.
pub proof fn lemma_fresh_candidates_agree(
    grid: Seq<Seq<u8>>,
    solution: Seq<Seq<u8>>,
    rows: nat,
    cols: nat,
)
    requires
        has_shape(grid, rows, cols),
        has_shape(solution, rows, cols),
        forall|x: int, y: int| 0 <= x < rows && 0 <= y < cols ==> is_value(#[trigger] solution[x][y]),
        forall|x: int, y: int|
            0 <= x < rows && 0 <= y < cols && grid[x][y] != 0 ==> (#[trigger] solution[x][y])
                == grid[x][y],
    ensures
        agrees(grid, uniform(rows, cols, ALL_CANDIDATES), solution),
{
    let masks = uniform(rows, cols, ALL_CANDIDATES);
    assert forall|x: int, y: int|
        0 <= x < solution.len() && 0 <= y < solution[x].len() implies #[trigger] cell_agrees(
        grid,
        masks,
        solution,
        x,
        y,
    ) by {
        let v = solution[x][y];
        assert(is_value(v));
        assert(1 <= v <= 9 ==> (511u16 & (1u16 << ((v - 1) as u16)) != 0)) by (bit_vector);
    }
}

/// On a 9 by 9 grid whose givens can be completed to a grid that holds each
/// value exactly once in every row, column and box, the passes never put a
/// value twice into a row, a column or a box.
pub proof fn lemma_region_integrity_9x9(
    grid: Seq<Seq<u8>>,
    solution: Seq<Seq<u8>>,
    n: nat,
    k: int,
)
    requires
        has_shape(grid, 9, 9),
        in_range(grid),
        is_solution(solution, rules_9x9(), 9, 9),
        forall|x: int, y: int|
            0 <= x < 9 && 0 <= y < 9 && grid[x][y] != 0 ==> (#[trigger] solution[x][y])
                == grid[x][y],
        0 <= k < 27,
    ensures
        no_value_twice(
            after_passes(rules_9x9(), grid, uniform(9, 9, ALL_CANDIDATES), n).0,
            region_9x9(k),
        ),
{
    lemma_rules_9x9_fit();
    lemma_rules_9x9_guarded();
    lemma_fresh_candidates_agree(grid, solution, 9, 9);
    assert(rules_9x9()[1 + k].region() == region_9x9(k));
    lemma_region_integrity(
        rules_9x9(),
        grid,
        uniform(9, 9, ALL_CANDIDATES),
        solution,
        n,
        1 + k,
        9,
        9,
    );
}

} // verus!

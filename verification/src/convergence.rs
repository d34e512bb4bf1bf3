use crate::board::has_shape;
use crate::candidates::{
    lemma_narrowed_chain, lemma_narrowed_counts, narrowed, no_more_candidates, resolve,
};
use crate::exclude_when_solved::exclude_solved;
use crate::fill_region_uniquely::{fill_value, fill_values, lemma_fill_values_narrows, sole_holder};
use crate::mask::{
    is_submask, is_value, lemma_single_bit, lemma_submask, lemma_submask_of_excluded,
    lemma_value_bit, popcount, single_value,
};
use crate::region::{lies_in, on_grid};
use crate::rules::{in_phase_order, marks_solved, rules_9x9, rules_fit, RuleView};
use crate::solver::{after_passes, apply_rules, changes_grid, lemma_apply_rules_narrows, pass};
use crate::unique_by_region::{peer_bits, prune_region};
use vstd::prelude::*;

verus! {

/// Whether every solved cell of `grid` has lost all its candidates.
pub open spec fn is_cleared(grid: Seq<Seq<u8>>, masks: Seq<Seq<u16>>) -> bool {
    forall|x: int, y: int|
        0 <= x < masks.len() && 0 <= y < masks[x].len() && grid[x][y] != 0 ==> (
        #[trigger] masks[x][y]) == 0
}

/// Whether every cell that has a value in `before` has the same value in
/// `after`.
pub open spec fn keeps_values(before: Seq<Seq<u8>>, after: Seq<Seq<u8>>) -> bool {
    forall|x: int, y: int|
        0 <= x < before.len() && 0 <= y < before[x].len() && before[x][y] != 0 ==> (
        #[trigger] after[x][y]) == before[x][y]
}

/// Values that are kept over one stretch and over the next are kept over both.
pub proof fn lemma_keeps_values_chain(
    a: Seq<Seq<u8>>,
    b: Seq<Seq<u8>>,
    c: Seq<Seq<u8>>,
    rows: nat,
    cols: nat,
)
    requires
        has_shape(a, rows, cols),
        has_shape(b, rows, cols),
        keeps_values(a, b),
        keeps_values(b, c),
    ensures
        keeps_values(a, c),
{
    assert forall|x: int, y: int| 0 <= x < a.len() && 0 <= y < a[x].len() && a[x][y] != 0 implies (
    #[trigger] c[x][y]) == a[x][y] by {
        assert(b[x][y] == a[x][y]);
    }
}

/// Whether no cell has exactly one candidate.
pub open spec fn no_single(masks: Seq<Seq<u16>>) -> bool {
    forall|x: int, y: int|
        0 <= x < masks.len() && 0 <= y < masks[x].len() ==> popcount(#[trigger] masks[x][y]) != 1
}

/// Whether applying `rule` to `grid` and `masks` changes nothing.
pub open spec fn is_fixed_by(rule: RuleView, grid: Seq<Seq<u8>>, masks: Seq<Seq<u16>>) -> bool {
    rule.effect(grid, masks) == masks
}

/// The rules from `j` on only narrow what the rules before `j` left.
pub proof fn lemma_rules_narrow_on(
    rules: Seq<RuleView>,
    j: int,
    k: int,
    grid: Seq<Seq<u8>>,
    masks: Seq<Seq<u16>>,
    rows: nat,
    cols: nat,
)
    requires
        0 <= j <= k <= rules.len(),
        rules_fit(rules, rows, cols),
        has_shape(masks, rows, cols),
    ensures
        has_shape(apply_rules(rules, j, grid, masks), rows, cols),
        has_shape(apply_rules(rules, k, grid, masks), rows, cols),
        narrowed(apply_rules(rules, j, grid, masks), apply_rules(rules, k, grid, masks)),
    decreases k - j,
{
    lemma_apply_rules_narrows(rules, j, grid, masks, rows, cols);
    let from = apply_rules(rules, j, grid, masks);
    if j == k {
        lemma_narrowed_chain(from, from, from);
    } else {
        lemma_rules_narrow_on(rules, j, k - 1, grid, masks, rows, cols);
        let mid = apply_rules(rules, k - 1, grid, masks);
        rules[k - 1].lemma_effect_narrows(grid, mid, rows, cols);
        lemma_narrowed_chain(from, mid, apply_rules(rules, k, grid, masks));
    }
}

/// Once the solved cells are marked they stay marked.
pub proof fn lemma_stays_cleared(grid: Seq<Seq<u8>>, masks: Seq<Seq<u16>>, after: Seq<Seq<u16>>)
    requires
        is_cleared(grid, masks),
        narrowed(masks, after),
    ensures
        is_cleared(grid, after),
{
    assert forall|x: int, y: int|
        0 <= x < after.len() && 0 <= y < after[x].len() && grid[x][y] != 0 implies (
    #[trigger] after[x][y]) == 0 by {
        assert(after[x].len() == masks[x].len());
        assert(masks[x][y] == 0);
        assert(is_submask(after[x][y], masks[x][y]));
        lemma_submask(after[x][y], masks[x][y]);
    }
}

/// Where one of the rules marks the solved cells, the rules leave every
/// solved cell without candidates, and the pass leaves every value as it is:
/// a cell that has a value is never given another.
pub proof fn lemma_pass_keeps_values(
    rules: Seq<RuleView>,
    grid: Seq<Seq<u8>>,
    masks: Seq<Seq<u16>>,
    rows: nat,
    cols: nat,
)
    requires
        rules_fit(rules, rows, cols),
        marks_solved(rules),
        has_shape(grid, rows, cols),
        has_shape(masks, rows, cols),
    ensures
        is_cleared(grid, pass(rules, grid, masks).1),
        keeps_values(grid, pass(rules, grid, masks).0),
{
    let len = rules.len() as int;
    let j = choose|j: int| 0 <= j < rules.len() && (#[trigger] rules[j]) is ExcludeWhenSolved;
    let before = apply_rules(rules, j, grid, masks);
    let marked = apply_rules(rules, j + 1, grid, masks);
    let last = apply_rules(rules, len, grid, masks);
    lemma_rules_narrow_on(rules, j + 1, len, grid, masks, rows, cols);
    lemma_rules_narrow_on(rules, j, j + 1, grid, masks, rows, cols);
    assert(marked == exclude_solved(grid, before));
    assert(is_cleared(grid, marked));
    lemma_stays_cleared(grid, marked, last);
    let after = resolve(grid, last);
    assert forall|x: int, y: int|
        0 <= x < grid.len() && 0 <= y < grid[x].len() && grid[x][y] != 0 implies (
    #[trigger] after[x][y]) == grid[x][y] by {
        assert(last[x][y] == 0);
        assert(popcount(0u16) == 0) by (bit_vector);
    }
}

/// Where filling in the hidden single of a value leaves no cell with
/// exactly one candidate, there was no hidden single, and nothing changed.
pub proof fn lemma_fill_value_fixed(
    masks: Seq<Seq<u16>>,
    region: Seq<(usize, usize)>,
    v: u8,
    rows: nat,
    cols: nat,
)
    requires
        is_value(v),
        has_shape(masks, rows, cols),
        on_grid(region, rows, cols),
        no_single(fill_value(masks, region, v)),
    ensures
        fill_value(masks, region, v) == masks,
        no_single(masks),
{
    let after = fill_value(masks, region, v);
    if exists|i: int| sole_holder(masks, region, v, i) {
        let i = choose|i: int| sole_holder(masks, region, v, i);
        lemma_value_bit(v);
        assert(popcount(after[region[i].0 as int][region[i].1 as int]) == 1);
        assert(false);
    }
}

/// Where filling in the hidden singles of several values leaves no cell
/// with exactly one candidate, nothing changed.
pub proof fn lemma_fill_values_fixed(
    masks: Seq<Seq<u16>>,
    region: Seq<(usize, usize)>,
    n: int,
    rows: nat,
    cols: nat,
)
    requires
        n <= 9,
        has_shape(masks, rows, cols),
        on_grid(region, rows, cols),
        no_single(fill_values(masks, region, n)),
    ensures
        fill_values(masks, region, n) == masks,
    decreases n,
{
    if n > 0 {
        let mid = fill_values(masks, region, n - 1);
        lemma_fill_values_narrows(masks, region, n - 1, rows, cols);
        lemma_fill_value_fixed(mid, region, n as u8, rows, cols);
        lemma_fill_values_fixed(masks, region, n - 1, rows, cols);
    }
}

/// Where the rules from `from` on all fill in hidden singles and leave no
/// cell with exactly one candidate, none of them changed anything, and
/// none of them would change what they left.
pub proof fn lemma_fill_phase_fixed(
    rules: Seq<RuleView>,
    from: int,
    k: int,
    grid: Seq<Seq<u8>>,
    masks: Seq<Seq<u16>>,
    rows: nat,
    cols: nat,
)
    requires
        0 <= from <= k <= rules.len(),
        rules_fit(rules, rows, cols),
        has_shape(masks, rows, cols),
        forall|j: int| from <= j < k ==> (#[trigger] rules[j]) is FillRegionUniquely,
        no_single(apply_rules(rules, k, grid, masks)),
    ensures
        apply_rules(rules, k, grid, masks) == apply_rules(rules, from, grid, masks),
        forall|j: int|
            from <= j < k ==> is_fixed_by(
                #[trigger] rules[j],
                grid,
                apply_rules(rules, k, grid, masks),
            ),
    decreases k - from,
{
    if from < k {
        let mid = apply_rules(rules, k - 1, grid, masks);
        let rule = rules[k - 1];
        lemma_apply_rules_narrows(rules, k - 1, grid, masks, rows, cols);
        assert(rule is FillRegionUniquely);
        assert(rule.fits(rows, cols));
        lemma_fill_values_fixed(mid, rule.region(), 9, rows, cols);
        lemma_fill_phase_fixed(rules, from, k - 1, grid, masks, rows, cols);
    }
}

/// Rules that each change nothing change nothing together.
pub proof fn lemma_fixed_by_all(
    rules: Seq<RuleView>,
    k: int,
    grid: Seq<Seq<u8>>,
    masks: Seq<Seq<u16>>,
)
    requires
        k <= rules.len(),
        forall|j: int| 0 <= j < k ==> is_fixed_by(#[trigger] rules[j], grid, masks),
    ensures
        apply_rules(rules, k, grid, masks) == masks,
    decreases k,
{
    if k > 0 {
        lemma_fixed_by_all(rules, k - 1, grid, masks);
        assert(is_fixed_by(rules[k - 1], grid, masks));
    }
}

/// The first index from which on every rule fills in hidden singles.
pub open spec fn fill_phase_start(rules: Seq<RuleView>, k: int) -> int
    decreases k,
{
    if k <= 0 || !(rules[k - 1] is FillRegionUniquely) {
        k
    } else {
        fill_phase_start(rules, k - 1)
    }
}

/// In a rule set in phase order, every rule before the first Fill rule is no
/// Fill rule, and every rule from it on is one.
pub proof fn lemma_fill_phase_start(rules: Seq<RuleView>, k: int)
    requires
        in_phase_order(rules),
        0 <= k <= rules.len(),
        forall|j: int| k <= j < rules.len() ==> (#[trigger] rules[j]) is FillRegionUniquely,
    ensures
        0 <= fill_phase_start(rules, k) <= k,
        forall|j: int|
            fill_phase_start(rules, k) <= j < rules.len() ==> (
            #[trigger] rules[j]) is FillRegionUniquely,
        forall|j: int|
            0 <= j < fill_phase_start(rules, k) ==> !((#[trigger] rules[j]) is FillRegionUniquely),
    decreases k,
{
    if k <= 0 {
    } else if !(rules[k - 1] is FillRegionUniquely) {
        assert forall|j: int| 0 <= j < k implies !((#[trigger] rules[j]) is FillRegionUniquely) by {
            assert(rules[j].phase() <= rules[k - 1].phase());
        }
    } else {
        lemma_fill_phase_start(rules, k - 1);
    }
}

/// A pass that leaves the grid as it found it has reached a fixed point: where
/// the rules stand in phase order, a further pass changes neither the grid nor
/// the candidates.
pub proof fn lemma_converged_is_stable(
    rules: Seq<RuleView>,
    grid: Seq<Seq<u8>>,
    masks: Seq<Seq<u16>>,
    rows: nat,
    cols: nat,
)
    requires
        rules_fit(rules, rows, cols),
        in_phase_order(rules),
        has_shape(grid, rows, cols),
        has_shape(masks, rows, cols),
        pass(rules, grid, masks).0 == grid,
    ensures
        pass(rules, grid, pass(rules, grid, masks).1) == pass(rules, grid, masks),
{
    let len = rules.len() as int;
    let last = apply_rules(rules, len, grid, masks);
    lemma_rules_narrow_on(rules, 0, len, grid, masks, rows, cols);
    // The first rule marks the solved cells, and they stay marked.
    assert(rules[0] is ExcludeWhenSolved);
    lemma_pass_keeps_values(rules, grid, masks, rows, cols);
    // So no cell is left with exactly one candidate.
    assert forall|x: int, y: int| 0 <= x < last.len() && 0 <= y < last[x].len() implies popcount(
        #[trigger] last[x][y],
    ) != 1 by {
        if popcount(last[x][y]) == 1 {
            lemma_single_bit(last[x][y]);
            assert(resolve(grid, last)[x][y] == single_value(last[x][y]));
            assert(grid[x][y] != 0);
        }
    }
    // Hence no Fill rule changed anything.
    let start = fill_phase_start(rules, len);
    lemma_fill_phase_start(rules, len);
    lemma_fill_phase_fixed(rules, start, len, grid, masks, rows, cols);
    // No rule changes what the pass left.
    assert forall|j: int| 0 <= j < len implies is_fixed_by(#[trigger] rules[j], grid, last) by {
        let rule = rules[j];
        match rule {
            RuleView::ExcludeWhenSolved => {
                let again = exclude_solved(grid, last);
                assert forall|x: int| 0 <= x < last.len() implies #[trigger] again[x] =~= last[x] by {}
                assert(again =~= last);
            },
            RuleView::UniqueByRegion { .. } => {
                let region = rule.region();
                let before = apply_rules(rules, j, grid, masks);
                let pruned = apply_rules(rules, j + 1, grid, masks);
                lemma_rules_narrow_on(rules, j + 1, len, grid, masks, rows, cols);
                lemma_rules_narrow_on(rules, j, j + 1, grid, masks, rows, cols);
                assert(pruned == prune_region(grid, region, before));
                let again = prune_region(grid, region, last);
                assert forall|x: int| 0 <= x < last.len() implies #[trigger] again[x] =~= last[x] by {
                    assert forall|y: int| 0 <= y < last[x].len() implies again[x][y]
                        == last[x][y] by {
                        if lies_in(region, region.len() as int, x, y) {
                            assert(is_submask(last[x][y], pruned[x][y]));
                            lemma_submask_of_excluded(
                                last[x][y],
                                before[x][y],
                                peer_bits(grid, region, region.len() as int, x, y),
                            );
                        }
                    }
                }
                assert(again =~= last);
            },
            RuleView::FillRegionUniquely { .. } => {
                assert(start <= j);
            },
        }
    }
    lemma_fixed_by_all(rules, len, grid, last);
}

/// A converged loop stays converged: once a pass has left the grid as it
/// found it, every later pass leaves the grid and the candidates as they are.
pub proof fn lemma_stable_after_convergence(
    rules: Seq<RuleView>,
    grid: Seq<Seq<u8>>,
    masks: Seq<Seq<u16>>,
    n: nat,
    later: nat,
    rows: nat,
    cols: nat,
)
    requires
        rules_fit(rules, rows, cols),
        in_phase_order(rules),
        has_shape(grid, rows, cols),
        has_shape(masks, rows, cols),
        n >= 1,
        !changes_grid(rules, grid, masks, n),
        later >= n,
    ensures
        after_passes(rules, grid, masks, later) == after_passes(rules, grid, masks, n),
    decreases later,
{
    if later > n {
        lemma_stable_after_convergence(rules, grid, masks, n, (later - 1) as nat, rows, cols);
        let before = after_passes(rules, grid, masks, (n - 1) as nat);
        lemma_passes_keep_shape(rules, grid, masks, (n - 1) as nat, rows, cols);
        lemma_converged_is_stable(rules, before.0, before.1, rows, cols);
    }
}

/// The passes leave the shape of the grid and of the masks.
pub proof fn lemma_passes_keep_shape(
    rules: Seq<RuleView>,
    grid: Seq<Seq<u8>>,
    masks: Seq<Seq<u16>>,
    n: nat,
    rows: nat,
    cols: nat,
)
    requires
        rules_fit(rules, rows, cols),
        has_shape(grid, rows, cols),
        has_shape(masks, rows, cols),
    ensures
        has_shape(after_passes(rules, grid, masks, n).0, rows, cols),
        has_shape(after_passes(rules, grid, masks, n).1, rows, cols),
        narrowed(masks, after_passes(rules, grid, masks, n).1),
    decreases n,
{
    if n == 0 {
        lemma_narrowed_chain(masks, masks, masks);
    } else {
        lemma_passes_keep_shape(rules, grid, masks, (n - 1) as nat, rows, cols);
        let before = after_passes(rules, grid, masks, (n - 1) as nat);
        lemma_apply_rules_narrows(
            rules,
            rules.len() as int,
            before.0,
            before.1,
            rows,
            cols,
        );
        lemma_narrowed_chain(masks, before.1, after_passes(rules, grid, masks, n).1);
    }
}

/// From pass to pass no cell gains a candidate: what a later pass leaves is
/// narrower than what an earlier pass left.
pub proof fn lemma_passes_narrow(
    rules: Seq<RuleView>,
    grid: Seq<Seq<u8>>,
    masks: Seq<Seq<u16>>,
    earlier: nat,
    later: nat,
    rows: nat,
    cols: nat,
)
    requires
        rules_fit(rules, rows, cols),
        has_shape(grid, rows, cols),
        has_shape(masks, rows, cols),
        earlier <= later,
    ensures
        narrowed(
            after_passes(rules, grid, masks, earlier).1,
            after_passes(rules, grid, masks, later).1,
        ),
        no_more_candidates(
            after_passes(rules, grid, masks, earlier).1,
            after_passes(rules, grid, masks, later).1,
        ),
    decreases later - earlier,
{
    let from = after_passes(rules, grid, masks, earlier).1;
    lemma_passes_keep_shape(rules, grid, masks, earlier, rows, cols);
    if earlier == later {
        lemma_narrowed_chain(from, from, from);
    } else {
        lemma_passes_narrow(rules, grid, masks, earlier, (later - 1) as nat, rows, cols);
        lemma_passes_keep_shape(rules, grid, masks, (later - 1) as nat, rows, cols);
        let before = after_passes(rules, grid, masks, (later - 1) as nat);
        lemma_apply_rules_narrows(rules, rules.len() as int, before.0, before.1, rows, cols);
        lemma_narrowed_chain(from, before.1, after_passes(rules, grid, masks, later).1);
    }
    lemma_narrowed_counts(from, after_passes(rules, grid, masks, later).1);
}

/// The rules of a 9 by 9 grid stand in phase order.
pub proof fn lemma_rules_9x9_in_phase_order()
    ensures
        in_phase_order(rules_9x9()),
        marks_solved(rules_9x9()),
{
    assert(rules_9x9()[0] is ExcludeWhenSolved);
}

} // verus!

use crate::board::{has_shape, uniform, Gameboard};
use crate::candidates::{
    all_masks, lemma_narrowed_chain, lemma_narrowed_counts, narrowed, no_more_candidates,
    resolve, Candidates,
};
use crate::convergence::{
    is_cleared, keeps_values, lemma_converged_is_stable, lemma_keeps_values_chain,
    lemma_pass_keeps_values, lemma_rules_9x9_in_phase_order,
};
use crate::mask::{is_submask, lemma_submask, popcount, single_value, ALL_CANDIDATES};
use crate::rules::{
    build_9x9_rules, in_phase_order, lemma_rules_9x9_fit, marks_solved, rules_9x9, rules_fit,
    Rule, RuleView,
};
use vstd::prelude::*;

verus! {

/// The masks after the first `k` rules of `rules` have been applied in
/// order, each to what the one before it left.
pub open spec fn apply_rules(
    rules: Seq<RuleView>,
    k: int,
    grid: Seq<Seq<u8>>,
    masks: Seq<Seq<u16>>,
) -> Seq<Seq<u16>>
    decreases k,
{
    if k <= 0 {
        masks
    } else {
        rules[k - 1].effect(grid, apply_rules(rules, k - 1, grid, masks))
    }
}

/// The grid and the masks after one pass: all rules are applied in order,
/// then every cell with exactly one candidate left gets that candidate as
/// its value.
pub open spec fn pass(rules: Seq<RuleView>, grid: Seq<Seq<u8>>, masks: Seq<Seq<u16>>) -> (
    Seq<Seq<u8>>,
    Seq<Seq<u16>>,
) {
    let narrowed = apply_rules(rules, rules.len() as int, grid, masks);
    (resolve(grid, narrowed), narrowed)
}

/// The grid and the masks after `n` passes.
pub open spec fn after_passes(
    rules: Seq<RuleView>,
    grid: Seq<Seq<u8>>,
    masks: Seq<Seq<u16>>,
    n: nat,
) -> (Seq<Seq<u8>>, Seq<Seq<u16>>)
    decreases n,
{
    if n == 0 {
        (grid, masks)
    } else {
        let before = after_passes(rules, grid, masks, (n - 1) as nat);
        pass(rules, before.0, before.1)
    }
}

/// Whether pass `n` leaves the grid another than it found it.
pub open spec fn changes_grid(
    rules: Seq<RuleView>,
    grid: Seq<Seq<u8>>,
    masks: Seq<Seq<u16>>,
    n: nat,
) -> bool {
    after_passes(rules, grid, masks, n).0 != after_passes(rules, grid, masks, (n - 1) as nat).0
}

/// Whether pass `n` is the first pass that leaves the grid as it found it.
pub open spec fn converges_in(
    rules: Seq<RuleView>,
    grid: Seq<Seq<u8>>,
    masks: Seq<Seq<u16>>,
    n: nat,
) -> bool {
    &&& n >= 1
    &&& !changes_grid(rules, grid, masks, n)
    &&& forall|m: nat| 1 <= m < n ==> #[trigger] changes_grid(rules, grid, masks, m)
}

/// The state of the propagation loop after a pass.
#[derive(Clone, Copy, Debug, PartialEq, Eq, Structural)]
pub enum LoopState {
    /// The pass changed the grid: another pass may deduce more.
    Running,
    /// The pass left the grid as it found it: the loop stops.
    Converged,
}

/// Whether a pass could still change the cell at row `x`, column `y`: it has
/// more than one candidate, or one candidate that is not yet its value.
pub open spec fn is_open(grid: Seq<Seq<u8>>, masks: Seq<Seq<u16>>, x: int, y: int) -> bool {
    popcount(masks[x][y]) >= 2 || (popcount(masks[x][y]) == 1 && grid[x][y] != single_value(
        masks[x][y],
    ))
}

/// The number of indices below `k` that are marked.
pub open spec fn count_below(marked: spec_fn(int) -> bool, k: int) -> nat
    decreases k,
{
    if k <= 0 {
        0
    } else {
        count_below(marked, k - 1) + if marked(k - 1) {
            1nat
        } else {
            0nat
        }
    }
}

/// The sum of `term` over the indices below `k`.
pub open spec fn sum_below(term: spec_fn(int) -> nat, k: int) -> nat
    decreases k,
{
    if k <= 0 {
        0
    } else {
        sum_below(term, k - 1) + term(k - 1)
    }
}

/// The number of open cells in row `x`.
pub open spec fn open_in_row(grid: Seq<Seq<u8>>, masks: Seq<Seq<u16>>, x: int) -> nat {
    count_below(|y: int| is_open(grid, masks, x, y), masks[x].len() as int)
}

/// The number of open cells: the passes that change the grid cannot be more.
pub open spec fn open_cells(grid: Seq<Seq<u8>>, masks: Seq<Seq<u16>>) -> nat {
    sum_below(|x: int| open_in_row(grid, masks, x), masks.len() as int)
}

/// Fewer indices satisfy a stronger condition.
proof fn lemma_count_below(
    stronger: spec_fn(int) -> bool,
    weaker: spec_fn(int) -> bool,
    k: int,
    witness: int,
)
    requires
        forall|i: int| 0 <= i < k && #[trigger] stronger(i) ==> weaker(i),
    ensures
        count_below(stronger, k) <= count_below(weaker, k),
        0 <= witness < k && weaker(witness) && !stronger(witness) ==> count_below(stronger, k)
            < count_below(weaker, k),
    decreases k,
{
    if k > 0 {
        lemma_count_below(stronger, weaker, k - 1, witness);
    }
}

/// A sum of smaller terms is smaller.
proof fn lemma_sum_below(
    smaller: spec_fn(int) -> nat,
    larger: spec_fn(int) -> nat,
    k: int,
    witness: int,
)
    requires
        forall|i: int| 0 <= i < k ==> #[trigger] smaller(i) <= larger(i),
    ensures
        sum_below(smaller, k) <= sum_below(larger, k),
        0 <= witness < k && smaller(witness) < larger(witness) ==> sum_below(smaller, k)
            < sum_below(larger, k),
    decreases k,
{
    if k > 0 {
        lemma_sum_below(smaller, larger, k - 1, witness);
    }
}

/// A pass that changes the grid closes a cell, and no pass opens one.
pub proof fn lemma_pass_closes_cell(
    grid: Seq<Seq<u8>>,
    masks: Seq<Seq<u16>>,
    after: Seq<Seq<u16>>,
    rows: nat,
    cols: nat,
)
    requires
        has_shape(grid, rows, cols),
        has_shape(masks, rows, cols),
        narrowed(masks, after),
    ensures
        open_cells(resolve(grid, after), after) <= open_cells(grid, masks),
        resolve(grid, after) != grid ==> open_cells(resolve(grid, after), after) < open_cells(
            grid,
            masks,
        ),
{
    let next = resolve(grid, after);
    let old_row = |x: int| open_in_row(grid, masks, x);
    let new_row = |x: int| open_in_row(next, after, x);
    assert forall|x: int, y: int| 0 <= x < rows && 0 <= y < cols && is_open(
        next,
        after,
        x,
        y,
    ) implies is_open(grid, masks, x, y) by {
        assert(is_submask(after[x][y], masks[x][y]));
        lemma_submask(after[x][y], masks[x][y]);
    }
    assert forall|x: int| 0 <= x < rows implies #[trigger] new_row(x) <= old_row(x) by {
        assert(after[x].len() == masks[x].len());
        lemma_count_below(
            |y: int| is_open(next, after, x, y),
            |y: int| is_open(grid, masks, x, y),
            cols as int,
            0,
        );
    }
    lemma_sum_below(new_row, old_row, rows as int, 0);
    if next != grid {
        if forall|x: int, y: int| 0 <= x < rows && 0 <= y < cols ==> next[x][y] == grid[x][y] {
            assert forall|x: int| 0 <= x < rows implies #[trigger] next[x] =~= grid[x] by {
                assert forall|y: int| 0 <= y < cols implies next[x][y] == grid[x][y] by {}
            }
            assert(next =~= grid);
        }
        let (x, y) = choose|x: int, y: int|
            0 <= x < rows && 0 <= y < cols && next[x][y] != grid[x][y];
        assert(is_submask(after[x][y], masks[x][y]));
        lemma_submask(after[x][y], masks[x][y]);
        assert(popcount(after[x][y]) == 1);
        assert(!is_open(next, after, x, y));
        assert(is_open(grid, masks, x, y));
        assert(after[x].len() == masks[x].len());
        lemma_count_below(
            |y: int| is_open(next, after, x, y),
            |y: int| is_open(grid, masks, x, y),
            cols as int,
            y,
        );
        assert(new_row(x) < old_row(x));
        lemma_sum_below(new_row, old_row, rows as int, x);
    }
}

/// Applying rules leaves masks well formed and gives no cell a candidate.
pub proof fn lemma_apply_rules_narrows(
    rules: Seq<RuleView>,
    k: int,
    grid: Seq<Seq<u8>>,
    masks: Seq<Seq<u16>>,
    rows: nat,
    cols: nat,
)
    requires
        k <= rules.len(),
        rules_fit(rules, rows, cols),
        has_shape(masks, rows, cols),
    ensures
        has_shape(apply_rules(rules, k, grid, masks), rows, cols),
        narrowed(masks, apply_rules(rules, k, grid, masks)),
        all_masks(masks) ==> all_masks(apply_rules(rules, k, grid, masks)),
    decreases k,
{
    if k <= 0 {
        lemma_narrowed_chain(masks, masks, masks);
    } else {
        let mid = apply_rules(rules, k - 1, grid, masks);
        lemma_apply_rules_narrows(rules, k - 1, grid, masks, rows, cols);
        rules[k - 1].lemma_effect_narrows(grid, mid, rows, cols);
        lemma_narrowed_chain(masks, mid, rules[k - 1].effect(grid, mid));
    }
}

/// One pass of the propagation loop: applies every rule in order, then gives
/// every cell with exactly one candidate left that candidate as its value.
/// The loop keeps running if that changed the grid, and has converged if
/// not.
pub fn run_pass<const X: usize, const Y: usize>(
    rules: &Vec<Rule>,
    gameboard: &mut Gameboard<X, Y>,
    candidates: &mut Candidates<X, Y>,
) -> (state: LoopState)
    requires
        rules_fit(rules.deep_view(), X as nat, Y as nat),
        old(gameboard).wf(),
        old(candidates).wf(),
    ensures
        (final(gameboard)@, final(candidates)@) == pass(
            rules.deep_view(),
            old(gameboard)@,
            old(candidates)@,
        ),
        state == (if final(gameboard)@ != old(gameboard)@ {
            LoopState::Running
        } else {
            LoopState::Converged
        }),
        narrowed(old(candidates)@, final(candidates)@),
        no_more_candidates(old(candidates)@, final(candidates)@),
        marks_solved(rules.deep_view()) ==> is_cleared(old(gameboard)@, final(candidates)@),
        marks_solved(rules.deep_view()) ==> keeps_values(old(gameboard)@, final(gameboard)@),
        final(gameboard).wf(),
        final(candidates).wf(),
{
    let ghost grid = gameboard@;
    let ghost before = candidates@;
    proof {
        lemma_narrowed_chain(before, before, before);
        if marks_solved(rules.deep_view()) {
            lemma_pass_keeps_values(rules.deep_view(), grid, before, X as nat, Y as nat);
        }
    }
    for k in 0..rules.len()
        invariant
            rules_fit(rules.deep_view(), X as nat, Y as nat),
            gameboard@ == grid,
            gameboard.wf(),
            candidates.wf(),
            candidates@ == apply_rules(rules.deep_view(), k as int, grid, before),
            narrowed(before, candidates@),
    {
        let ghost mid = candidates@;
        assert(rules.deep_view()[k as int] == rules@[k as int]@);
        rules[k].visit(gameboard, candidates);
        proof {
            lemma_narrowed_chain(before, mid, candidates@);
        }
    }
    proof {
        lemma_narrowed_counts(before, candidates@);
    }
    if candidates.apply_uniques(gameboard) {
        LoopState::Running
    } else {
        LoopState::Converged
    }
}

/// The propagation loop: runs passes until one leaves the grid as it found
/// it. The grid then holds every value the rules could deduce; cells they
/// could not decide stay unknown.
pub fn solve<const X: usize, const Y: usize>(
    rules: &Vec<Rule>,
    gameboard: &mut Gameboard<X, Y>,
    candidates: &mut Candidates<X, Y>,
)
    requires
        rules_fit(rules.deep_view(), X as nat, Y as nat),
        old(gameboard).wf(),
        old(candidates).wf(),
    ensures
        exists|n: nat|
            converges_in(rules.deep_view(), old(gameboard)@, old(candidates)@, n) && n
                <= open_cells(old(gameboard)@, old(candidates)@) + 1 && (
                final(gameboard)@,
                final(candidates)@,
            ) == #[trigger] after_passes(rules.deep_view(), old(gameboard)@, old(candidates)@, n),
        narrowed(old(candidates)@, final(candidates)@),
        no_more_candidates(old(candidates)@, final(candidates)@),
        marks_solved(rules.deep_view()) ==> keeps_values(old(gameboard)@, final(gameboard)@),
        in_phase_order(rules.deep_view()) ==> pass(
            rules.deep_view(),
            final(gameboard)@,
            final(candidates)@,
        ) == (final(gameboard)@, final(candidates)@),
        final(gameboard).wf(),
        final(candidates).wf(),
{
    let ghost grid = gameboard@;
    let ghost masks = candidates@;
    let ghost mut n: nat = 0;
    proof {
        lemma_narrowed_chain(masks, masks, masks);
    }
    loop
        invariant_except_break
            forall|m: nat|
                1 <= m <= n ==> #[trigger] changes_grid(rules.deep_view(), grid, masks, m),
            n + open_cells(gameboard@, candidates@) <= open_cells(grid, masks),
        invariant
            rules_fit(rules.deep_view(), X as nat, Y as nat),
            has_shape(grid, X as nat, Y as nat),
            gameboard.wf(),
            candidates.wf(),
            narrowed(masks, candidates@),
            marks_solved(rules.deep_view()) ==> keeps_values(grid, gameboard@),
            (gameboard@, candidates@) == after_passes(rules.deep_view(), grid, masks, n),
        ensures
            converges_in(rules.deep_view(), grid, masks, n),
            n <= open_cells(grid, masks) + 1,
            (gameboard@, candidates@) == after_passes(rules.deep_view(), grid, masks, n),
            narrowed(masks, candidates@),
            marks_solved(rules.deep_view()) ==> keeps_values(grid, gameboard@),
            in_phase_order(rules.deep_view()) ==> pass(rules.deep_view(), gameboard@, candidates@) == (
                gameboard@,
                candidates@,
            ),
            gameboard.wf(),
            candidates.wf(),
        decreases open_cells(gameboard@, candidates@),
    {
        let ghost found = gameboard@;
        let ghost held = candidates@;
        let state = run_pass(rules, gameboard, candidates);
        let ghost changed = state == LoopState::Running;
        proof {
            n = n + 1;
            assert(after_passes(rules.deep_view(), grid, masks, n) == pass(rules.deep_view(), found, held));
            lemma_narrowed_chain(masks, held, candidates@);
            lemma_pass_closes_cell(found, held, candidates@, X as nat, Y as nat);
            if marks_solved(rules.deep_view()) {
                lemma_keeps_values_chain(grid, found, gameboard@, X as nat, Y as nat);
            }
            if !changed && in_phase_order(rules.deep_view()) {
                lemma_converged_is_stable(rules.deep_view(), found, held, X as nat, Y as nat);
            }
        }
        match state {
            LoopState::Running => {},
            LoopState::Converged => {
                break ;
            },
        }
    }
    proof {
        lemma_narrowed_counts(masks, candidates@);
    }
}

/// Solves a 9 by 9 grid as far as deduction reaches: starts with every
/// value possible in every cell and runs the propagation loop with the rules
/// of the 9 by 9 grid. Returns the candidates that are left.
pub fn solve_9x9(gameboard: &mut Gameboard<9, 9>) -> (candidates: Candidates<9, 9>)
    requires
        old(gameboard).wf(),
    ensures
        exists|n: nat|
            converges_in(rules_9x9(), old(gameboard)@, uniform(9, 9, ALL_CANDIDATES), n) && (
                final(gameboard)@,
                candidates@,
            ) == #[trigger] after_passes(
                rules_9x9(),
                old(gameboard)@,
                uniform(9, 9, ALL_CANDIDATES),
                n,
            ),
        keeps_values(old(gameboard)@, final(gameboard)@),
        pass(rules_9x9(), final(gameboard)@, candidates@) == (final(gameboard)@, candidates@),
        final(gameboard).wf(),
        candidates.wf(),
{
    let rules = build_9x9_rules();
    let mut candidates = Candidates::<9, 9>::default();
    proof {
        lemma_rules_9x9_fit();
        lemma_rules_9x9_in_phase_order();
    }
    solve(&rules, gameboard, &mut candidates);
    candidates
}

} // verus!

use crate::board::{has_shape, Gameboard};
use crate::candidates::{all_masks, narrowed, Candidates};
use crate::exclude_when_solved::{exclude_solved, lemma_exclude_solved_narrows, ExcludeWhenSolved};
use crate::fill_region_uniquely::{fill_region, lemma_fill_values_narrows, FillRegionUniquely};
use crate::region::{build_9x9_regions, on_grid, region_9x9, Region};
use crate::unique_by_region::{lemma_prune_narrows, prune_region, UniqueByRegion};
use std::rc::Rc;
use vstd::prelude::*;

verus! {

/// What a rule is, apart from how it is stored: its kind, and the positions
/// of the region it watches over where it has one.
pub enum RuleView {
    ExcludeWhenSolved,
    UniqueByRegion { region: Seq<(usize, usize)> },
    FillRegionUniquely { region: Seq<(usize, usize)> },
}

impl RuleView {
    /// The positions of the region the rule watches over; none for the rule
    /// that looks at the whole grid.
    pub open spec fn region(self) -> Seq<(usize, usize)> {
        match self {
            RuleView::ExcludeWhenSolved => Seq::empty(),
            RuleView::UniqueByRegion { region } => region,
            RuleView::FillRegionUniquely { region } => region,
        }
    }

    /// Whether the rule can be applied to a grid of `rows` rows and `cols`
    /// columns: its region lies on the grid.
    pub open spec fn fits(self, rows: nat, cols: nat) -> bool {
        on_grid(self.region(), rows, cols)
    }

    /// The masks that the rule leaves when it is applied to `grid` and `masks`.
    pub open spec fn effect(self, grid: Seq<Seq<u8>>, masks: Seq<Seq<u16>>) -> Seq<Seq<u16>> {
        match self {
            RuleView::ExcludeWhenSolved => exclude_solved(grid, masks),
            RuleView::UniqueByRegion { region } => prune_region(grid, region, masks),
            RuleView::FillRegionUniquely { region } => fill_region(masks, region),
        }
    }

    /// The phase of a pass that the rule belongs to: the rules on the whole
    /// grid come first, then the rules that prune a region, then the rules
    /// that fill in hidden singles.
    pub open spec fn phase(self) -> int {
        match self {
            RuleView::ExcludeWhenSolved => 0,
            RuleView::UniqueByRegion { .. } => 1,
            RuleView::FillRegionUniquely { .. } => 2,
        }
    }
}

/// Whether `rules` starts with the rule that marks the solved cells and
/// holds its rules phase by phase.
pub open spec fn in_phase_order(rules: Seq<RuleView>) -> bool {
    &&& rules.len() > 0
    &&& rules[0] is ExcludeWhenSolved
    &&& forall|i: int, j: int|
        0 <= i <= j < rules.len() ==> (#[trigger] rules[i]).phase() <= (#[trigger] rules[j]).phase()
}

/// Whether one of the rules marks the solved cells.
pub open spec fn marks_solved(rules: Seq<RuleView>) -> bool {
    exists|j: int| 0 <= j < rules.len() && (#[trigger] rules[j]) is ExcludeWhenSolved
}

/// Whether every rule of `rules` can be applied to a grid of `rows` rows and
/// `cols` columns.
pub open spec fn rules_fit(rules: Seq<RuleView>, rows: nat, cols: nat) -> bool {
    forall|k: int| 0 <= k < rules.len() ==> (#[trigger] rules[k]).fits(rows, cols)
}

impl RuleView {
    /// Whatever the rule, applying it leaves the shape of the masks, leaves
    /// them well formed and gives no cell a candidate.
    pub proof fn lemma_effect_narrows(
        self,
        grid: Seq<Seq<u8>>,
        masks: Seq<Seq<u16>>,
        rows: nat,
        cols: nat,
    )
        requires
            self.fits(rows, cols),
            has_shape(masks, rows, cols),
        ensures
            has_shape(self.effect(grid, masks), rows, cols),
            narrowed(masks, self.effect(grid, masks)),
            all_masks(masks) ==> all_masks(self.effect(grid, masks)),
    {
        match self {
            RuleView::ExcludeWhenSolved => {
                lemma_exclude_solved_narrows(grid, masks);
            },
            RuleView::UniqueByRegion { region } => {
                lemma_prune_narrows(grid, region, region.len() as int, masks);
            },
            RuleView::FillRegionUniquely { region } => {
                lemma_fill_values_narrows(masks, region, 9, rows, cols);
            },
        }
    }
}

/// A deduction rule: one of the three kinds.
pub enum Rule {
    ExcludeWhenSolved(ExcludeWhenSolved),
    UniqueByRegion(UniqueByRegion),
    FillRegionUniquely(FillRegionUniquely),
}

impl View for Rule {
    type V = RuleView;

    open spec fn view(&self) -> RuleView {
        match self {
            Rule::ExcludeWhenSolved(_) => RuleView::ExcludeWhenSolved,
            Rule::UniqueByRegion(rule) => RuleView::UniqueByRegion { region: rule.region() },
            Rule::FillRegionUniquely(rule) => RuleView::FillRegionUniquely { region: rule.region() },
        }
    }
}

impl DeepView for Rule {
    type V = RuleView;

    open spec fn deep_view(&self) -> RuleView {
        self@
    }
}

impl Rule {
    /// Applies the rule: reads the grid and narrows the candidates.
    pub fn visit<const X: usize, const Y: usize>(
        &self,
        gameboard: &Gameboard<X, Y>,
        candidates: &mut Candidates<X, Y>,
    )
        requires
            self@.fits(X as nat, Y as nat),
            gameboard.wf(),
        ensures
            final(candidates)@ == self@.effect(gameboard@, old(candidates)@),
            narrowed(old(candidates)@, final(candidates)@),
            old(candidates).wf() ==> final(candidates).wf(),
    {
        match self {
            Rule::ExcludeWhenSolved(rule) => rule.visit(gameboard, candidates),
            Rule::UniqueByRegion(rule) => rule.visit(gameboard, candidates),
            Rule::FillRegionUniquely(rule) => rule.visit(gameboard, candidates),
        }
    }
}

/// The rule set of a 9 by 9 grid: the rule that marks the solved cells, then
/// for each of the 27 regions the rule that lets no value stand twice, then
/// for each of the 27 regions the rule of the hidden single.
pub open spec fn rules_9x9() -> Seq<RuleView> {
    Seq::new(
        55,
        |k: int|
            if k == 0 {
                RuleView::ExcludeWhenSolved
            } else if k < 28 {
                RuleView::UniqueByRegion { region: region_9x9(k - 1) }
            } else {
                RuleView::FillRegionUniquely { region: region_9x9(k - 28) }
            },
    )
}

/// `Rc::clone` returns another pointer to the same allocation: the region it
/// points to is the one `region` points to.
#[verifier::external_body]
fn share(region: &Rc<Region>) -> (shared: Rc<Region>)
    ensures
        shared == region,
{
    Rc::clone(region)
}

/// The rules of a 9 by 9 grid, in the order in which a pass applies them.
pub fn build_9x9_rules() -> (rules: Vec<Rule>)
    ensures
        rules@.len() == 55,
        rules.deep_view() == rules_9x9(),
{
    let mut rules: Vec<Rule> = Vec::new();

    let positions = build_9x9_regions();
    let mut regions: Vec<Rc<Region>> = Vec::new();
    for list in it: positions
        invariant
            regions@.len() == it.index(),
            it.seq().len() == 27,
            forall|k: int| 0 <= k < 27 ==> (#[trigger] it.seq()[k])@ == region_9x9(k),
            forall|k: int| 0 <= k < regions@.len() ==> (#[trigger] regions@[k])@ == region_9x9(k),
    {
        regions.push(Rc::new(Region::new(list)));
    }

    rules.push(Rule::ExcludeWhenSolved(ExcludeWhenSolved {  }));

    for k in 0..27usize
        invariant
            regions@.len() == 27,
            forall|k: int| 0 <= k < 27 ==> (#[trigger] regions@[k])@ == region_9x9(k),
            rules@.len() == 1 + k,
            forall|i: int| 0 <= i < 1 + k ==> (#[trigger] rules@[i])@ == rules_9x9()[i],
    {
        rules.push(Rule::UniqueByRegion(UniqueByRegion(share(&regions[k]))));
    }

    for k in 0..27usize
        invariant
            regions@.len() == 27,
            forall|k: int| 0 <= k < 27 ==> (#[trigger] regions@[k])@ == region_9x9(k),
            rules@.len() == 28 + k,
            forall|i: int| 0 <= i < 28 + k ==> (#[trigger] rules@[i])@ == rules_9x9()[i],
    {
        rules.push(Rule::FillRegionUniquely(FillRegionUniquely(share(&regions[k]))));
    }

    assert(rules.deep_view() =~= rules_9x9());
    rules
}

/// The rules of a 9 by 9 grid can be applied to a 9 by 9 grid.
pub proof fn lemma_rules_9x9_fit()
    ensures
        rules_fit(rules_9x9(), 9, 9),
{
    assert forall|k: int| 0 <= k < rules_9x9().len() implies (#[trigger] rules_9x9()[k]).fits(
        9,
        9,
    ) by {
        let region = rules_9x9()[k].region();
        assert forall|i: int| 0 <= i < region.len() implies (#[trigger] region[i]).0 < 9
            && region[i].1 < 9 by {}
    }
}

} // verus!

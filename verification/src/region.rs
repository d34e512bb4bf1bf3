use std::rc::Rc;
use vstd::prelude::*;

verus! {

/// Whether every position of `positions` lies on a grid of `rows` rows and
/// `cols` columns.
pub open spec fn on_grid(positions: Seq<(usize, usize)>, rows: nat, cols: nat) -> bool {
    forall|i: int|
        0 <= i < positions.len() ==> (#[trigger] positions[i]).0 < rows && positions[i].1 < cols
}

/// A group of cells that must hold each value exactly once: a row, a column
/// or a box. The list of positions is stored once and shared by all clones.
#[derive(Clone)]
pub struct Region {
    positions: Rc<Vec<(usize, usize)>>,
}

impl View for Region {
    type V = Seq<(usize, usize)>;

    /// The positions of the region, as `(row, column)`, in their order.
    closed spec fn view(&self) -> Seq<(usize, usize)> {
        self.positions@
    }
}

impl Region {
    /// The region of the given positions, in the given order.
    pub fn new(positions: Vec<(usize, usize)>) -> (region: Self)
        ensures
            region@ == positions@,
    {
        Self { positions: Rc::new(positions) }
    }

    /// The number of positions in the region.
    pub fn len(&self) -> (len: usize)
        ensures
            len == self@.len(),
    {
        self.positions.len()
    }

    /// The position at index `i`.
    pub fn position(&self, i: usize) -> (position: (usize, usize))
        requires
            i < self@.len(),
        ensures
            position == self@[i as int],
    {
        self.positions[i]
    }
}

/// Whether the cell at row `x`, column `y` is among the first `k` positions of
/// `region`.
pub open spec fn lies_in(region: Seq<(usize, usize)>, k: int, x: int, y: int) -> bool {
    exists|i: int| 0 <= i < k && (#[trigger] region[i]).0 == x && region[i].1 == y
}

/// A cell is among the first `k + 1` positions when it is among the first `k`
/// or is the position at index `k`.
pub proof fn lemma_lies_in_step(region: Seq<(usize, usize)>, k: int, x: int, y: int)
    requires
        0 <= k,
    ensures
        lies_in(region, k + 1, x, y) <==> lies_in(region, k, x, y) || (region[k].0 == x
            && region[k].1 == y),
        !lies_in(region, 0, x, y),
{
    if lies_in(region, k + 1, x, y) {
        let i = choose|i: int| 0 <= i < k + 1 && (#[trigger] region[i]).0 == x && region[i].1 == y;
        if i < k {
            assert(lies_in(region, k, x, y));
        }
    }
    if lies_in(region, k, x, y) {
        let i = choose|i: int| 0 <= i < k && (#[trigger] region[i]).0 == x && region[i].1 == y;
        assert(0 <= i < k + 1 && region[i].0 == x && region[i].1 == y);
    }
    if region[k].0 == x && region[k].1 == y {
        assert(0 <= k < k + 1 && region[k].0 == x && region[k].1 == y);
    }
}

/// The value that `grid` holds at position `i` of `region`.
pub open spec fn value_at(grid: Seq<Seq<u8>>, region: Seq<(usize, usize)>, i: int) -> u8 {
    grid[region[i].0 as int][region[i].1 as int]
}

/// The cells of row `x` of a 9 by 9 grid, from left to right.
pub open spec fn row_cells(x: int) -> Seq<(usize, usize)> {
    Seq::new(9, |i: int| (x as usize, i as usize))
}

/// The cells of column `y` of a 9 by 9 grid, from top to bottom.
pub open spec fn column_cells(y: int) -> Seq<(usize, usize)> {
    Seq::new(9, |i: int| (i as usize, y as usize))
}

/// The cells of the 3 by 3 box in box row `bx` and box column `by` of a 9 by
/// 9 grid, row by row.
pub open spec fn box_cells(bx: int, by: int) -> Seq<(usize, usize)> {
    Seq::new(9, |i: int| ((bx * 3 + i / 3) as usize, (by * 3 + i % 3) as usize))
}

/// Region `k` of a 9 by 9 grid: the nine rows, then the nine columns, then
/// the nine boxes, row of boxes by row of boxes.
pub open spec fn region_9x9(k: int) -> Seq<(usize, usize)> {
    if k < 9 {
        row_cells(k)
    } else if k < 18 {
        column_cells(k - 9)
    } else {
        box_cells((k - 18) / 3, (k - 18) % 3)
    }
}

/// The position lists of the 27 regions of a 9 by 9 grid.
pub fn build_9x9_regions() -> (regions: Vec<Vec<(usize, usize)>>)
    ensures
        regions@.len() == 27,
        forall|k: int| 0 <= k < 27 ==> (#[trigger] regions@[k])@ == region_9x9(k),
{
    let mut regions: Vec<Vec<(usize, usize)>> = Vec::new();

    // rows
    for x in 0..9usize
        invariant
            regions@.len() == x,
            forall|k: int| 0 <= k < x ==> (#[trigger] regions@[k])@ == region_9x9(k),
    {
        let mut row: Vec<(usize, usize)> = Vec::new();
        for y in 0..9usize
            invariant
                x < 9,
                row@.len() == y,
                forall|i: int| 0 <= i < y ==> #[trigger] row@[i] == (x, i as usize),
        {
            row.push((x, y));
        }
        assert(row@ =~= row_cells(x as int));
        regions.push(row);
    }

    // columns
    for y in 0..9usize
        invariant
            regions@.len() == 9 + y,
            forall|k: int| 0 <= k < 9 + y ==> (#[trigger] regions@[k])@ == region_9x9(k),
    {
        let mut column: Vec<(usize, usize)> = Vec::new();
        for x in 0..9usize
            invariant
                y < 9,
                column@.len() == x,
                forall|i: int| 0 <= i < x ==> #[trigger] column@[i] == (i as usize, y),
        {
            column.push((x, y));
        }
        assert(column@ =~= column_cells(y as int));
        regions.push(column);
    }

    // 3x3 boxes
    for x_outer in 0..3usize
        invariant
            regions@.len() == 18 + 3 * x_outer,
            forall|k: int| 0 <= k < 18 + 3 * x_outer ==> (#[trigger] regions@[k])@ == region_9x9(k),
    {
        for y_outer in 0..3usize
            invariant
                x_outer < 3,
                regions@.len() == 18 + 3 * x_outer + y_outer,
                forall|k: int|
                    0 <= k < 18 + 3 * x_outer + y_outer ==> (#[trigger] regions@[k])@ == region_9x9(k),
        {
            let mut cells: Vec<(usize, usize)> = Vec::new();
            for x_inner in 0..3usize
                invariant
                    x_outer < 3,
                    y_outer < 3,
                    cells@.len() == 3 * x_inner,
                    forall|i: int|
                        0 <= i < 3 * x_inner ==> #[trigger] cells@[i] == (
                            (x_outer * 3 + i / 3) as usize,
                            (y_outer * 3 + i % 3) as usize,
                        ),
            {
                for y_inner in 0..3usize
                    invariant
                        x_outer < 3,
                        y_outer < 3,
                        x_inner < 3,
                        cells@.len() == 3 * x_inner + y_inner,
                        forall|i: int|
                            0 <= i < 3 * x_inner + y_inner ==> #[trigger] cells@[i] == (
                                (x_outer * 3 + i / 3) as usize,
                                (y_outer * 3 + i % 3) as usize,
                            ),
                {
                    cells.push((x_outer * 3 + x_inner, y_outer * 3 + y_inner));
                }
            }
            assert(cells@ =~= box_cells(x_outer as int, y_outer as int));
            regions.push(cells);
        }
    }

    regions
}

} // verus!

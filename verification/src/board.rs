use vstd::prelude::*;

verus! {

/// Whether `grid` has `rows` rows of `cols` cells each.
pub open spec fn has_shape<T>(grid: Seq<Seq<T>>, rows: nat, cols: nat) -> bool {
    &&& grid.len() == rows
    &&& forall|x: int| 0 <= x < rows ==> (#[trigger] grid[x]).len() == cols
}

/// The grid of `rows` rows and `cols` columns that holds `value` in every cell.
pub open spec fn uniform<T>(rows: nat, cols: nat, value: T) -> Seq<Seq<T>> {
    Seq::new(rows, |x: int| Seq::new(cols, |y: int| value))
}

/// The grid `grid` with `value` in the cell at row `x`, column `y`.
pub open spec fn with_cell<T>(grid: Seq<Seq<T>>, x: int, y: int, value: T) -> Seq<Seq<T>> {
    grid.update(x, grid[x].update(y, value))
}

/// Whether every cell of `grid` is unknown (`0`) or holds a value `1..=9`.
pub open spec fn in_range(grid: Seq<Seq<u8>>) -> bool {
    forall|x: int, y: int|
        0 <= x < grid.len() && 0 <= y < grid[x].len() ==> (#[trigger] grid[x][y]) <= 9
}

/// A grid of `X` rows and `Y` columns of cell values: `0` marks a cell whose
/// value is unknown, `1..=9` a fixed value.
#[derive(Debug)]
pub struct Gameboard<const X: usize, const Y: usize> {
    state: [[u8; Y]; X],
}

impl<const X: usize, const Y: usize> View for Gameboard<X, Y> {
    type V = Seq<Seq<u8>>;

    /// The rows of the grid, each the sequence of its cells.
    open spec fn view(&self) -> Seq<Seq<u8>> {
        Seq::new(X as nat, |x: int| Seq::new(Y as nat, |y: int| self.spec_cell(x, y)))
    }
}

impl<const X: usize, const Y: usize> Gameboard<X, Y> {
    /// The value at row `x`, column `y`.
    pub closed spec fn spec_cell(&self, x: int, y: int) -> u8 {
        self.state[x][y]
    }

    /// The board that holds exactly the given rows.
    pub closed spec fn of_rows(rows: [[u8; Y]; X]) -> Self {
        Gameboard { state: rows }
    }

    /// Every cell is unknown or holds a value `1..=9`.
    pub open spec fn wf(&self) -> bool {
        in_range(self@)
    }

    /// Writes `value` into the cell at row `x`, column `y`.
    pub fn set_cell(&mut self, x: usize, y: usize, value: u8)
        requires
            x < X,
            y < Y,
        ensures
            final(self)@ == with_cell(old(self)@, x as int, y as int, value),
    {
        self.state[x][y] = value;
        proof {
            let after = self@;
            let expected = with_cell(old(self)@, x as int, y as int, value);
            assert forall|i: int| 0 <= i < X implies #[trigger] after[i] =~= expected[i] by {}
            assert(after =~= expected);
        }
    }

    /// Reads the cell at row `x`, column `y`.
    pub fn cell(&self, x: usize, y: usize) -> (value: u8)
        requires
            x < X,
            y < Y,
        ensures
            value == self@[x as int][y as int],
    {
        self.state[x][y]
    }

    /// Whether every cell is unknown or holds a value `1..=9`.
    pub fn is_valid(&self) -> (valid: bool)
        ensures
            valid == self.wf(),
    {
        for x in 0..X
            invariant
                forall|i: int, j: int| 0 <= i < x && 0 <= j < Y ==> (#[trigger] self@[i][j]) <= 9,
        {
            for y in 0..Y
                invariant
                    x < X,
                    forall|i: int, j: int|
                        0 <= i < x && 0 <= j < Y ==> (#[trigger] self@[i][j]) <= 9,
                    forall|j: int| 0 <= j < y ==> (#[trigger] self@[x as int][j]) <= 9,
            {
                if self.state[x][y] > 9 {
                    assert(self@[x as int][y as int] > 9);
                    return false;
                }
            }
        }
        true
    }
}

/// The character of the decimal digit `d`.
pub open spec fn digit_char(d: u8) -> char {
    if d == 0 {
        '0'
    } else if d == 1 {
        '1'
    } else if d == 2 {
        '2'
    } else if d == 3 {
        '3'
    } else if d == 4 {
        '4'
    } else if d == 5 {
        '5'
    } else if d == 6 {
        '6'
    } else if d == 7 {
        '7'
    } else if d == 8 {
        '8'
    } else {
        '9'
    }
}

/// The text of a cell: a dot for an unknown cell, else the value in decimal.
pub open spec fn cell_text(value: u8) -> Seq<char> {
    if value == 0 {
        seq!['.']
    } else if value < 10 {
        seq![digit_char(value)]
    } else if value < 100 {
        seq![digit_char(value / 10), digit_char(value % 10)]
    } else {
        seq![digit_char(value / 100), digit_char((value / 10) % 10), digit_char(value % 10)]
    }
}

/// The text of the first `k` cells of a row: each cell followed by a space.
pub open spec fn row_text(row: Seq<u8>, k: int) -> Seq<char>
    decreases k,
{
    if k <= 0 {
        Seq::empty()
    } else {
        row_text(row, k - 1) + cell_text(row[k - 1]) + seq![' ']
    }
}

/// The text of the first `k` rows of a grid: each row followed by a line
/// break.
pub open spec fn grid_text(grid: Seq<Seq<u8>>, k: int) -> Seq<char>
    decreases k,
{
    if k <= 0 {
        Seq::empty()
    } else {
        grid_text(grid, k - 1) + row_text(grid[k - 1], grid[k - 1].len() as int) + seq!['\n']
    }
}

/// The text of one decimal digit.
fn digit_text(d: u8) -> (text: &'static str)
    requires
        d < 10,
    ensures
        text@ == seq![digit_char(d)],
{
    proof {
        reveal_strlit("0");
        reveal_strlit("1");
        reveal_strlit("2");
        reveal_strlit("3");
        reveal_strlit("4");
        reveal_strlit("5");
        reveal_strlit("6");
        reveal_strlit("7");
        reveal_strlit("8");
        reveal_strlit("9");
    }
    let text = match d {
        0 => "0",
        1 => "1",
        2 => "2",
        3 => "3",
        4 => "4",
        5 => "5",
        6 => "6",
        7 => "7",
        8 => "8",
        _ => "9",
    };
    assert(text@ =~= seq![digit_char(d)]);
    text
}

impl<const X: usize, const Y: usize> Gameboard<X, Y> {
    /// The grid as text: one line for each row, and in it each cell as a dot
    /// if it is unknown, else as its value, followed by a space.
    pub fn render(&self) -> (text: String)
        ensures
            text@ == grid_text(self@, X as int),
    {
        let mut text = String::new();
        proof {
            reveal_strlit(".");
            reveal_strlit(" ");
            reveal_strlit("\n");
        }
        for x in 0..X
            invariant
                text@ == grid_text(self@, x as int),
                "."@ == seq!['.'],
                " "@ == seq![' '],
                "\n"@ == seq!['\n'],
        {
            let ghost done = text@;
            for y in 0..Y
                invariant
                    x < X,
                    text@ == done + row_text(self@[x as int], y as int),
                    "."@ == seq!['.'],
                    " "@ == seq![' '],
            {
                let ghost so_far = text@;
                let value = self.state[x][y];
                if value == 0 {
                    text.append(".");
                } else {
                    if value >= 100 {
                        text.append(digit_text(value / 100));
                    }
                    if value >= 10 {
                        text.append(digit_text((value / 10) % 10));
                    }
                    text.append(digit_text(value % 10));
                }
                assert(text@ =~= so_far + cell_text(value));
                text.append(" ");
                assert(text@ =~= done + row_text(self@[x as int], y + 1));
            }
            text.append("\n");
            assert(text@ =~= grid_text(self@, x + 1));
        }
        text
    }
}

/// The grid that an array of rows holds.
pub open spec fn grid_of<const X: usize, const Y: usize>(rows: [[u8; Y]; X]) -> Seq<Seq<u8>> {
    Seq::new(X as nat, |x: int| rows[x]@)
}

impl<const X: usize, const Y: usize> From<[[u8; Y]; X]> for Gameboard<X, Y> {
    /// Takes the rows as they are: `0` for an unknown cell, `1..=9` for a given.
    fn from(value: [[u8; Y]; X]) -> (board: Self)
        ensures
            board@ == grid_of(value),
    {
        let board = Self { state: value };
        proof {
            assert forall|x: int| 0 <= x < X implies #[trigger] board@[x] =~= grid_of(value)[x] by {}
            assert(board@ =~= grid_of(value));
        }
        board
    }
}

impl<const X: usize, const Y: usize> vstd::std_specs::convert::FromSpecImpl<[[u8; Y]; X]> for Gameboard<X, Y> {
    open spec fn obeys_from_spec() -> bool {
        true
    }

    open spec fn from_spec(value: [[u8; Y]; X]) -> Self {
        Gameboard::of_rows(value)
    }
}

} // verus!

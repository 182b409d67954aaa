use crate::collapse::{
    coordinates_of, covers, initial_state, placed, seeded, Collapse, FromCollapse, Restriction,
    Search, SearchState,
};
pub use crate::grid::Grid;
use crate::grid::{lemma_product_cell, lemma_product_contains, lemma_product_distinct, product};
use crate::iter::filter::{AccumulateFilter, Domain, Predicate};
use vstd::prelude::*;
use vstd::string::StringExecFns;

verus! {

/// The rule that a cell may not hold the digit of a cell that it shares
/// a row, a column or a block with.
#[derive(Clone, Copy)]
pub struct NotEqual(pub u8);

impl Predicate<u8> for NotEqual {
    open spec fn admits(&self, item: u8) -> bool {
        item != self.0
    }

    fn test(&self, item: &u8) -> (b: bool) {
        *item != self.0
    }
}

/// The nine-by-nine digit puzzle: every row, column and three-by-three
/// block holds each digit from 1 to 9 once.
pub struct Solver {
    grid: Grid,
}

/// The cell of the row `cell.0` and the column `cell.1` lies on the
/// board.
pub open spec fn on_board(cell: (usize, usize)) -> bool {
    cell.0 < 9 && cell.1 < 9
}

/// The digits from 1 to 9, in order.
pub open spec fn digits() -> Seq<u8> {
    Seq::new(9, |i: int| (i + 1) as u8)
}

/// The cells of the row `x`.
pub open spec fn row_of(x: usize) -> Seq<(usize, usize)> {
    Seq::new(9, |j: int| (x, j as usize))
}

/// The cells of the column `y`.
pub open spec fn column_of(y: usize) -> Seq<(usize, usize)> {
    Seq::new(9, |i: int| (i as usize, y))
}

/// The cells of the block that `cell` lies in.
pub open spec fn block_of(cell: (usize, usize)) -> Seq<(usize, usize)> {
    product(
        3 * (cell.0 as int / 3),
        3 * (cell.0 as int / 3) + 3,
        3 * (cell.1 as int / 3),
        3 * (cell.1 as int / 3) + 3,
    )
}

impl Solver {
    #[verifier::type_invariant]
    spec fn nine_by_nine(self) -> bool {
        self.grid@ == (9usize, 9usize)
    }

    /// The extents of the grid of the puzzle.
    pub closed spec fn extents(&self) -> (usize, usize) {
        self.grid@
    }

    /// The puzzle on its nine-by-nine grid.
    pub fn new() -> (out: Self)
        ensures
            out.extents() == (9usize, 9usize),
    {
        let grid = Grid::new(9, 9);
        Self { grid }
    }

    /// The state in which every cell of `state` that is not 0 is pinned
    /// to its digit, the cells taken row by row.
    pub fn get_state(&self, state: [[u8; 9]; 9]) -> (out: SearchState<
        (usize, usize),
        u8,
        Restriction<u8, NotEqual>,
    >)
        ensures
            out@ == given(self, state, 81),
            covers(out@, self.space()),
    {
        proof {
            use_type_invariant(self);
        }
        let mut sudoku = self.get_initial();
        let coords = self.grid.clone().into_iter();
        let mut k: usize = 0;
        proof {
            lemma_product_cell(0, 9, 0, 9, 0);
            assert(coords@.len() == 81);
            assert(sudoku@ =~= initial_state(self));
            assert forall|i: int| 0 <= i < self.space().len() implies sudoku@.contains_key(
                #[trigger] self.space()[i],
            ) by {
                assert(self.space().contains(self.space()[i]));
            }
        }
        while k < coords.len()
            invariant
                k <= coords@.len(),
                coords@ == self.space(),
                coords@.len() == 81,
                sudoku@ == given(self, state, k as nat),
                covers(sudoku@, self.space()),
            decreases coords.len() - k,
        {
            let coord = coords[k];
            proof {
                lemma_product_cell(0, 9, 0, 9, k as int);
                assert(self.space().contains(coords@[k as int]));
            }
            let item = state[coord.0][coord.1];
            if item != 0 {
                self.apply_single(coord, item, &mut sudoku);
            }
            k += 1;
        }
        sudoku
    }
}

/// The state after the givens among the first `k` cells of `clues`,
/// taken row by row, are pinned one after the other.
pub open spec fn given(solver: &Solver, clues: [[u8; 9]; 9], k: nat) -> Map<
    (usize, usize),
    Domain<u8, Restriction<u8, NotEqual>>,
>
    decreases k,
{
    if k == 0 {
        initial_state(solver)
    } else {
        let before = given(solver, clues, (k - 1) as nat);
        let cell = solver.space()[k - 1];
        let item = clues[cell.0 as int][cell.1 as int];
        if item != 0 {
            seeded(solver, before, cell, item)
        } else {
            before
        }
    }
}

/// A filled board.
pub struct Sudoku {
    sudoku: [[u8; 9]; 9],
}

impl Sudoku {
    /// The digits of the board, row by row.
    pub closed spec fn cells(&self) -> [[u8; 9]; 9] {
        self.sudoku
    }

    /// The digit of the cell in the row `row` and the column `column`.
    pub fn get(&self, row: usize, column: usize) -> (digit: u8)
        requires
            row < 9,
            column < 9,
        ensures
            digit == self.cells()[row as int][column as int],
    {
        self.sudoku[row][column]
    }
}

/// The character of a decimal digit.
pub open spec fn digit(d: int) -> char {
    if d == 0 {
        '0'
    } else if d == 1 {
        '1'
    } else if d == 2 {
        '2'
    } else if d == 3 {
        '3'
    } else if d == 4 {
        '4'
    } else if d == 5 {
        '5'
    } else if d == 6 {
        '6'
    } else if d == 7 {
        '7'
    } else if d == 8 {
        '8'
    } else {
        '9'
    }
}

/// The decimal digits of a number, without leading zeros.
pub open spec fn decimal(n: nat) -> Seq<char>
    decreases n,
{
    if n < 10 {
        seq![digit(n as int)]
    } else {
        decimal(n / 10).push(digit((n % 10) as int))
    }
}

/// The text of one decimal digit.
fn digit_text(d: u8) -> (out: &'static str)
    requires
        d < 10,
    ensures
        out@ == seq![digit(d as int)],
{
    proof {
        reveal_strlit("0");
        reveal_strlit("1");
        reveal_strlit("2");
        reveal_strlit("3");
        reveal_strlit("4");
        reveal_strlit("5");
        reveal_strlit("6");
        reveal_strlit("7");
        reveal_strlit("8");
        reveal_strlit("9");
    }
    let out = if d == 0 {
        "0"
    } else if d == 1 {
        "1"
    } else if d == 2 {
        "2"
    } else if d == 3 {
        "3"
    } else if d == 4 {
        "4"
    } else if d == 5 {
        "5"
    } else if d == 6 {
        "6"
    } else if d == 7 {
        "7"
    } else if d == 8 {
        "8"
    } else {
        "9"
    };
    assert(out@ =~= seq![digit(d as int)]);
    out
}

/// Appends the decimal digits of `n` to `out`.
fn append_decimal(out: &mut String, n: u8)
    ensures
        final(out)@ == old(out)@ + decimal(n as nat),
{
    let ghost before = out@;
    if n >= 100 {
        out.append(digit_text(n / 100));
    }
    if n >= 10 {
        out.append(digit_text((n / 10) % 10));
    }
    out.append(digit_text(n % 10));
    proof {
        let m = n as nat;
        if n >= 100 {
            assert(decimal(m / 100) == seq![digit((m / 100) as int)]);
            assert((m / 10) / 10 == m / 100);
            assert(decimal(m / 10) == decimal(m / 100).push(digit(((m / 10) % 10) as int)));
            assert(decimal(m) == decimal(m / 10).push(digit((m % 10) as int)));
        } else if n >= 10 {
            assert(decimal(m / 10) == seq![digit((m / 10) as int)]);
            assert(decimal(m) == decimal(m / 10).push(digit((m % 10) as int)));
        }
        assert(out@ =~= before + decimal(m));
    }
}

impl Sudoku {
    /// The first `j` digits of the row `i`, a blank after each.
    pub open spec fn row_upto(&self, i: int, j: nat) -> Seq<char>
        decreases j,
    {
        if j == 0 {
            Seq::empty()
        } else {
            self.row_upto(i, (j - 1) as nat) + decimal(self.cells()[i][j - 1] as nat) + seq![' ']
        }
    }

    /// The first `i` rows of the board, a line break after each.
    pub open spec fn text_upto(&self, i: nat) -> Seq<char>
        decreases i,
    {
        if i == 0 {
            Seq::empty()
        } else {
            self.text_upto((i - 1) as nat) + self.row_upto(i - 1, 9) + seq!['\n']
        }
    }

    /// The board as text: nine lines of nine digits.
    pub open spec fn text(&self) -> Seq<char> {
        self.text_upto(9)
    }

    /// Writes the board out.
    pub fn to_string(&self) -> (out: String)
        ensures
            out@ == self.text(),
    {
        let mut out = String::new();
        let mut i: usize = 0;
        while i < 9
            invariant
                i <= 9,
                out@ == self.text_upto(i as nat),
            decreases 9 - i,
        {
            let ghost above = out@;
            let mut j: usize = 0;
            while j < 9
                invariant
                    i < 9,
                    j <= 9,
                    out@ == above + self.row_upto(i as int, j as nat),
                decreases 9 - j,
            {
                let ghost sofar = self.row_upto(i as int, j as nat);
                let cell = self.sudoku[i][j];
                append_decimal(&mut out, cell);
                out.append(" ");
                proof {
                    reveal_strlit(" ");
                }
                assert(out@ =~= above + (sofar + decimal(cell as nat) + seq![' ']));
                j += 1;
            }
            let ghost row = self.row_upto(i as int, 9);
            out.append("\n");
            proof {
                reveal_strlit("\n");
            }
            assert(out@ =~= above + row + seq!['\n']);
            i += 1;
        }
        out
    }
}

/// An assignment of the cells of the puzzle has a place on the board
/// for each of its digits.
pub proof fn lemma_solution_fits(solver: &Solver, solution: Seq<((usize, usize), u8)>)
    requires
        coordinates_of(solution) == solver.space(),
    ensures
        Sudoku::fits(solution),
{
    assert forall|k: int| 0 <= k < solution.len() implies on_board(#[trigger] solution[k].0) by {
        assert(coordinates_of(solution)[k] == solution[k].0);
        lemma_product_cell(0, 9, 0, 9, 0);
        lemma_product_cell(0, 9, 0, 9, k);
    }
}

impl FromCollapse for Sudoku {
    type Collapser = Solver;

    open spec fn fits(solution: Seq<((usize, usize), u8)>) -> bool {
        forall|k: int| 0 <= k < solution.len() ==> on_board(#[trigger] solution[k].0)
    }

    open spec fn shows(&self, solution: Seq<((usize, usize), u8)>) -> bool {
        forall|i: int, j: int|
            0 <= i < 9 && 0 <= j < 9 ==> #[trigger] self.cells()[i][j] == placed(
                solution,
                (i as usize, j as usize),
                0u8,
            )
    }

    fn from_collapse(solution: Vec<((usize, usize), u8)>) -> (out: Self) {
        let mut sudoku: [[u8; 9]; 9] = [[0; 9]; 9];
        let mut k: usize = 0;
        while k < solution.len()
            invariant
                k <= solution@.len(),
                Self::fits(solution@),
                forall|i: int, j: int|
                    0 <= i < 9 && 0 <= j < 9 ==> #[trigger] sudoku[i][j] == placed(
                        solution@.take(k as int),
                        (i as usize, j as usize),
                        0u8,
                    ),
            decreases solution.len() - k,
        {
            let (coord, item) = solution[k];
            proof {
                assert(on_board(solution@[k as int].0));
                assert(solution@.take(k + 1).drop_last() == solution@.take(k as int));
                assert(solution@.take(k + 1).last() == solution@[k as int]);
            }
            let mut row = sudoku[coord.0];
            row[coord.1] = item;
            sudoku[coord.0] = row;
            k += 1;
        }
        proof {
            assert(solution@.take(k as int) == solution@);
        }
        Self { sudoku }
    }
}

impl Collapse for Solver {
    type Item = u8;

    type Coordinate = (usize, usize);

    type Rule = NotEqual;

    open spec fn space(&self) -> Seq<(usize, usize)> {
        product(0, 9, 0, 9)
    }

    open spec fn base(&self, coord: (usize, usize)) -> Seq<u8> {
        digits()
    }

    open spec fn updates(&self, coord: (usize, usize), item: u8) -> Seq<
        (Seq<(usize, usize)>, NotEqual),
    > {
        seq![
            (row_of(coord.0), NotEqual(item)),
            (column_of(coord.1), NotEqual(item)),
            (block_of(coord), NotEqual(item)),
        ]
    }

    fn update(&self, coord: (usize, usize), item: u8) -> (out: Vec<
        (Vec<(usize, usize)>, NotEqual),
    >) {
        proof {
            lemma_product_contains(0, 9, 0, 9, coord);
        }
        let remove = NotEqual(item);
        let row = self.grid.row(coord.0);
        let column = self.grid.column(coord.1);
        let size: (usize, usize) = (3, 3);
        proof {
            assert(size.0 * size.1 == 9) by (nonlinear_arith)
                requires
                    size.0 == 3,
                    size.1 == 3,
            ;
            assert(Grid::corner(coord, size) == (
                3 * (coord.0 as int / 3),
                3 * (coord.1 as int / 3),
            ));
        }
        let block = self.grid.block(coord, size);
        let mut out: Vec<(Vec<(usize, usize)>, NotEqual)> = Vec::new();
        out.push((row, remove));
        out.push((column, remove));
        out.push((block, remove));
        proof {
            let pairs = self.updates(coord, item);
            assert(crate::collapse::pairs_of(out@) =~= pairs);
            assert forall|i: int, j: int|
                0 <= i < pairs.len() && 0 <= j < pairs[i].0.len() implies self.space().contains(
                #[trigger] pairs[i].0[j],
            ) by {
                let cell = pairs[i].0[j];
                if i == 2 {
                    let l = 3 * (coord.0 as int / 3);
                    let t = 3 * (coord.1 as int / 3);
                    assert(block_of(coord).contains(cell));
                    lemma_product_contains(l, l + 3, t, t + 3, cell);
                }
                lemma_product_contains(0, 9, 0, 9, cell);
            }
        }
        out
    }

    fn get_coords(&self) -> (out: Vec<(usize, usize)>) {
        proof {
            use_type_invariant(self);
            lemma_product_distinct(0, 9, 0, 9);
        }
        self.grid.clone().into_iter()
    }

    fn get_initial(&self) -> (out: SearchState<(usize, usize), u8, Restriction<u8, NotEqual>>) {
        proof {
            use_type_invariant(self);
        }
        let mut sudoku: SearchState<(usize, usize), u8, Restriction<u8, NotEqual>> =
            SearchState::new();
        let coords = self.grid.clone().into_iter();
        let mut k: usize = 0;
        while k < coords.len()
            invariant
                k <= coords@.len(),
                coords@ == product(0, 9, 0, 9),
                forall|coord: (usize, usize)|
                    sudoku@.contains_key(coord) <==> coords@.take(k as int).contains(coord),
                forall|coord: (usize, usize)|
                    sudoku@.contains_key(coord) ==> #[trigger] sudoku@[coord] == (Domain {
                        rest: digits(),
                        filters: Seq::<Restriction<u8, NotEqual>>::empty(),
                    }),
            decreases coords.len() - k,
        {
            let coord = coords[k];
            let ghost before = coords@.take(k as int);
            sudoku.insert(coord, AccumulateFilter::new(one_to_nine()));
            proof {
                let after = coords@.take(k + 1);
                assert(after == before.push(coord));
                assert forall|cell: (usize, usize)|
                    after.contains(cell) <==> before.contains(cell) || cell == coord by {
                    if before.contains(cell) {
                        let i = choose|i: int| 0 <= i < before.len() && before[i] == cell;
                        assert(after[i] == cell);
                    }
                    if cell == coord {
                        assert(after[k as int] == cell);
                    }
                }
            }
            k += 1;
        }
        proof {
            assert(coords@.take(k as int) == coords@);
        }
        sudoku
    }
}

/// The digits from 1 to 9 as a base sequence.
fn one_to_nine() -> (out: Vec<u8>)
    ensures
        out@ == digits(),
{
    let mut out: Vec<u8> = Vec::new();
    let mut digit: u8 = 1;
    while digit < 10
        invariant
            1 <= digit <= 10,
            out@ == Seq::new((digit - 1) as nat, |i: int| (i + 1) as u8),
        decreases 10 - digit,
    {
        out.push(digit);
        digit += 1;
        assert(out@ =~= Seq::new((digit - 1) as nat, |i: int| (i + 1) as u8));
    }
    out
}

} // verus!

use crate::collapse::{
    coordinates_of, pairs_of, placed, Collapse, FromCollapse, Identical, Restriction,
    SearchState,
};
use crate::grid::{
    cartesian_product, lemma_product_cell, lemma_product_contains, lemma_product_distinct,
    product, Grid,
};
use crate::iter::filter::{AccumulateFilter, Domain, Predicate};
use vstd::prelude::*;
use vstd::string::StringExecFns;

verus! {

/// What runs across an edge of a piece.
#[derive(Copy, Clone, PartialEq, Eq, Structural)]
pub enum Link {
    Blank,
    Road,
    Track,
    Path,
    River,
}

impl Link {
    /// The letter that stands for the link.
    pub open spec fn letter(&self) -> char {
        match self {
            Link::Blank => ' ',
            Link::Road => 'R',
            Link::Track => 'T',
            Link::Path => 'P',
            Link::River => 'W',
        }
    }

    /// The letter of the link, as text.
    pub fn to_string(&self) -> (out: String)
        ensures
            out@ == seq![self.letter()],
    {
        proof {
            reveal_strlit(" ");
            reveal_strlit("R");
            reveal_strlit("T");
            reveal_strlit("P");
            reveal_strlit("W");
        }
        let out = String::from_str(
            match self {
                Link::Blank => " ",
                Link::Road => "R",
                Link::Track => "T",
                Link::Path => "P",
                Link::River => "W",
            },
        );
        assert(out@ =~= seq![self.letter()]);
        out
    }
}

/// One edge of a piece: the two links on it, read clockwise.
#[derive(Copy, Clone)]
pub struct Side(pub Link, pub Link);

impl Side {
    /// Whether the two sides fit together: laid edge to edge, each link
    /// meets its like.
    pub open spec fn fits(&self, other: &Side) -> bool {
        self.0 == other.1 && self.1 == other.0
    }
}

impl PartialEq for Side {
    /// Whether the two sides fit together.
    fn eq(&self, rhs: &Self) -> (b: bool) {
        self.0 == rhs.1 && self.1 == rhs.0
    }
}

impl vstd::std_specs::cmp::PartialEqSpecImpl for Side {
    open spec fn obeys_eq_spec() -> bool {
        true
    }

    open spec fn eq_spec(&self, rhs: &Self) -> bool {
        self.fits(rhs)
    }
}

/// The four sides of each of the sixteen pieces, clockwise from the top.
pub open spec fn sides() -> Seq<Seq<Side>> {
    seq![
        seq![
            Side(Link::Track, Link::River),
            Side(Link::Path, Link::Track),
            Side(Link::Road, Link::River),
            Side(Link::Road, Link::Track),
        ],
        seq![
            Side(Link::Track, Link::Road),
            Side(Link::River, Link::Track),
            Side(Link::River, Link::Blank),
            Side(Link::Track, Link::Road),
        ],
        seq![
            Side(Link::Path, Link::River),
            Side(Link::Track, Link::Path),
            Side(Link::River, Link::River),
            Side(Link::River, Link::Track),
        ],
        seq![
            Side(Link::Track, Link::River),
            Side(Link::River, Link::Track),
            Side(Link::Blank, Link::Track),
            Side(Link::Blank, Link::Track),
        ],
        seq![
            Side(Link::Blank, Link::Road),
            Side(Link::Path, Link::River),
            Side(Link::Blank, Link::Road),
            Side(Link::Path, Link::River),
        ],
        seq![
            Side(Link::Track, Link::Path),
            Side(Link::Blank, Link::Road),
            Side(Link::Road, Link::River),
            Side(Link::River, Link::Path),
        ],
        seq![
            Side(Link::Path, Link::Track),
            Side(Link::Road, Link::River),
            Side(Link::Track, Link::Blank),
            Side(Link::Road, Link::River),
        ],
        seq![
            Side(Link::River, Link::Road),
            Side(Link::River, Link::Path),
            Side(Link::Road, Link::Track),
            Side(Link::Track, Link::Path),
        ],
        seq![
            Side(Link::Road, Link::Track),
            Side(Link::Road, Link::Blank),
            Side(Link::Track, Link::Path),
            Side(Link::River, Link::River),
        ],
        seq![
            Side(Link::River, Link::Path),
            Side(Link::Track, Link::River),
            Side(Link::River, Link::Road),
            Side(Link::Road, Link::River),
        ],
        seq![
            Side(Link::Track, Link::Path),
            Side(Link::Path, Link::River),
            Side(Link::River, Link::Road),
            Side(Link::Road, Link::Track),
        ],
        seq![
            Side(Link::River, Link::Track),
            Side(Link::Road, Link::River),
            Side(Link::Path, Link::Track),
            Side(Link::Track, Link::Road),
        ],
        seq![
            Side(Link::Path, Link::River),
            Side(Link::Road, Link::River),
            Side(Link::Blank, Link::River),
            Side(Link::River, Link::Road),
        ],
        seq![
            Side(Link::Track, Link::River),
            Side(Link::River, Link::Path),
            Side(Link::Track, Link::Road),
            Side(Link::Path, Link::Road),
        ],
        seq![
            Side(Link::Road, Link::Path),
            Side(Link::River, Link::Path),
            Side(Link::Road, Link::Blank),
            Side(Link::River, Link::Path),
        ],
        seq![
            Side(Link::Path, Link::Track),
            Side(Link::River, Link::Road),
            Side(Link::Road, Link::Path),
            Side(Link::River, Link::Track),
        ],
    ]
}

/// The table of `sides`.
pub fn pieces() -> (out: [[Side; 4]; 16])
    ensures
        forall|p: int, k: int| 0 <= p < 16 && 0 <= k < 4 ==> #[trigger] out[p][k] == sides()[p][k],
{
    [
        [
            Side(Link::Track, Link::River),
            Side(Link::Path, Link::Track),
            Side(Link::Road, Link::River),
            Side(Link::Road, Link::Track),
        ],
        [
            Side(Link::Track, Link::Road),
            Side(Link::River, Link::Track),
            Side(Link::River, Link::Blank),
            Side(Link::Track, Link::Road),
        ],
        [
            Side(Link::Path, Link::River),
            Side(Link::Track, Link::Path),
            Side(Link::River, Link::River),
            Side(Link::River, Link::Track),
        ],
        [
            Side(Link::Track, Link::River),
            Side(Link::River, Link::Track),
            Side(Link::Blank, Link::Track),
            Side(Link::Blank, Link::Track),
        ],
        [
            Side(Link::Blank, Link::Road),
            Side(Link::Path, Link::River),
            Side(Link::Blank, Link::Road),
            Side(Link::Path, Link::River),
        ],
        [
            Side(Link::Track, Link::Path),
            Side(Link::Blank, Link::Road),
            Side(Link::Road, Link::River),
            Side(Link::River, Link::Path),
        ],
        [
            Side(Link::Path, Link::Track),
            Side(Link::Road, Link::River),
            Side(Link::Track, Link::Blank),
            Side(Link::Road, Link::River),
        ],
        [
            Side(Link::River, Link::Road),
            Side(Link::River, Link::Path),
            Side(Link::Road, Link::Track),
            Side(Link::Track, Link::Path),
        ],
        [
            Side(Link::Road, Link::Track),
            Side(Link::Road, Link::Blank),
            Side(Link::Track, Link::Path),
            Side(Link::River, Link::River),
        ],
        [
            Side(Link::River, Link::Path),
            Side(Link::Track, Link::River),
            Side(Link::River, Link::Road),
            Side(Link::Road, Link::River),
        ],
        [
            Side(Link::Track, Link::Path),
            Side(Link::Path, Link::River),
            Side(Link::River, Link::Road),
            Side(Link::Road, Link::Track),
        ],
        [
            Side(Link::River, Link::Track),
            Side(Link::Road, Link::River),
            Side(Link::Path, Link::Track),
            Side(Link::Track, Link::Road),
        ],
        [
            Side(Link::Path, Link::River),
            Side(Link::Road, Link::River),
            Side(Link::Blank, Link::River),
            Side(Link::River, Link::Road),
        ],
        [
            Side(Link::Track, Link::River),
            Side(Link::River, Link::Path),
            Side(Link::Track, Link::Road),
            Side(Link::Path, Link::Road),
        ],
        [
            Side(Link::Road, Link::Path),
            Side(Link::River, Link::Path),
            Side(Link::Road, Link::Blank),
            Side(Link::River, Link::Path),
        ],
        [
            Side(Link::Path, Link::Track),
            Side(Link::River, Link::Road),
            Side(Link::Road, Link::Path),
            Side(Link::River, Link::Track),
        ],
    ]
}

/// A piece in one of its four rotations.
#[derive(Clone, Copy)]
pub struct Piece(usize, usize);

impl Piece {
    #[verifier::type_invariant]
    spec fn in_table(self) -> bool {
        self.0 < 16 && self.1 < 4
    }

    /// The first piece, unrotated.
    pub closed spec fn first() -> Piece {
        Piece(0, 0)
    }

    /// The number of the piece in the table.
    pub closed spec fn number(&self) -> int {
        self.0 as int
    }

    /// The quarter turns that the piece is rotated by.
    pub closed spec fn rotation(&self) -> int {
        self.1 as int
    }

    /// The side that the rotated piece shows in the direction `k`,
    /// counted clockwise from the top.
    pub open spec fn side(&self, k: int) -> Side {
        sides()[self.number()][(k + self.rotation()) % 4]
    }

    /// The side that the rotated piece shows in the direction `k`.
    pub fn side_at(&self, k: usize) -> (out: Side)
        ensures
            out == self.side(k as int),
    {
        proof {
            use_type_invariant(self);
        }
        pieces()[self.0][(k % 4 + self.1) % 4]
    }
}

impl Piece {
    /// The line `i` of the four-line picture of the piece: the top
    /// side, the two lines of the left and right sides, the bottom side.
    pub open spec fn line(&self, i: int) -> Seq<char> {
        if i == 0 {
            seq![' ', self.side(0).0.letter(), self.side(0).1.letter(), ' ']
        } else if i == 1 {
            seq![self.side(3).1.letter(), ' ', ' ', self.side(1).0.letter()]
        } else if i == 2 {
            seq![self.side(3).0.letter(), ' ', ' ', self.side(1).1.letter()]
        } else {
            seq![' ', self.side(2).1.letter(), self.side(2).0.letter(), ' ']
        }
    }

    /// Draws the line `i` of the picture of the piece.
    pub fn get_line(&self, i: usize) -> (out: String)
        ensures
            out@ == self.line(i as int),
    {
        proof {
            reveal_strlit(" ");
            reveal_strlit("  ");
        }
        let mut out = String::new();
        if i == 0 {
            let top = self.side_at(0);
            out.append(" ");
            out.append(top.0.to_string().as_str());
            out.append(top.1.to_string().as_str());
            out.append(" ");
        } else if i == 1 {
            let left = self.side_at(3);
            let right = self.side_at(1);
            out.append(left.1.to_string().as_str());
            out.append("  ");
            out.append(right.0.to_string().as_str());
        } else if i == 2 {
            let left = self.side_at(3);
            let right = self.side_at(1);
            out.append(left.0.to_string().as_str());
            out.append("  ");
            out.append(right.1.to_string().as_str());
        } else {
            let bottom = self.side_at(2);
            out.append(" ");
            out.append(bottom.1.to_string().as_str());
            out.append(bottom.0.to_string().as_str());
            out.append(" ");
        }
        assert(out@ =~= self.line(i as int));
        out
    }
}

impl Identical for Piece {
    fn same(&self, other: &Self) -> (b: bool) {
        self.0 == other.0 && self.1 == other.1
    }

    fn duplicate(&self) -> (out: Self) {
        *self
    }
}

/// An exclusion rule of the tiling puzzle.
#[derive(Clone, Copy)]
pub enum Rule {
    /// Admits every piece but the one of this number: a piece is laid
    /// once.
    Other(usize),
    /// Admits the pieces whose side towards the assigned piece fits the
    /// side `0` that it shows in the direction `1`.
    Fit(Side, usize),
}

impl Predicate<Piece> for Rule {
    open spec fn admits(&self, item: Piece) -> bool {
        match self {
            Rule::Other(number) => item.number() != *number,
            Rule::Fit(side, direction) => side.fits(&item.side(2 + *direction)),
        }
    }

    fn test(&self, item: &Piece) -> (b: bool) {
        match self {
            Rule::Other(number) => item.0 != *number,
            Rule::Fit(side, direction) => *side == item.side_at(2 + *direction % 4),
        }
    }
}

/// The four neighbours of a cell, clockwise, as offsets.
pub open spec fn neighbors() -> Seq<(isize, isize)> {
    seq![(0isize, -1isize), (1isize, 0isize), (0isize, 1isize), (-1isize, 0isize)]
}

/// Every piece in every rotation, the rotation running fastest.
pub closed spec fn all_pieces() -> Seq<Piece> {
    Seq::new(64, |k: int| Piece((k / 4) as usize, (k % 4) as usize))
}

/// The sixty-four items of `all_pieces`, by number and rotation.
pub proof fn lemma_all_pieces(k: int)
    requires
        0 <= k < 64,
    ensures
        all_pieces().len() == 64,
        all_pieces()[k].number() == k / 4,
        all_pieces()[k].rotation() == k % 4,
{
}

/// The four-by-four tiling puzzle: sixteen pieces, each laid once in
/// some rotation, so that sides that meet fit.
pub struct Solver {
    grid: Grid,
}

impl Solver {
    #[verifier::type_invariant]
    spec fn four_by_four(self) -> bool {
        self.grid@ == (4usize, 4usize)
    }

    /// The extents of the grid of the puzzle.
    pub closed spec fn extents(&self) -> (usize, usize) {
        self.grid@
    }

    /// The puzzle on its four-by-four grid.
    pub fn new() -> (out: Self)
        ensures
            out.extents() == (4usize, 4usize),
    {
        let grid = Grid::new(4, 4);
        Self { grid }
    }

    /// The rule that a neighbour in the direction `direction` of the
    /// piece `item` must fit it.
    pub fn fit(item: Piece, direction: usize) -> (out: Rule)
        ensures
            out == Rule::Fit(item.side(direction as int), direction),
    {
        Rule::Fit(item.side_at(direction), direction)
    }
}

/// Every piece in every rotation, as a base sequence.
fn board() -> (out: Vec<Piece>)
    ensures
        out@ == all_pieces(),
{
    let pairs = cartesian_product(0, 16, 0, 4);
    let mut out: Vec<Piece> = Vec::new();
    let mut k: usize = 0;
    proof {
        lemma_product_cell(0, 16, 0, 4, 0);
        assert(pairs@.len() == 64);
    }
    while k < pairs.len()
        invariant
            k <= pairs@.len(),
            pairs@.len() == 64,
            pairs@ == product(0, 16, 0, 4),
            out@ == all_pieces().take(k as int),
        decreases pairs.len() - k,
    {
        proof {
            lemma_product_cell(0, 16, 0, 4, k as int);
        }
        let (number, rotation) = pairs[k];
        out.push(Piece(number, rotation));
        proof {
            assert(out@ =~= all_pieces().take(k + 1));
        }
        k += 1;
    }
    proof {
        assert(all_pieces().take(k as int) == all_pieces());
    }
    out
}

impl Collapse for Solver {
    type Item = Piece;

    type Coordinate = (usize, usize);

    type Rule = Rule;

    open spec fn space(&self) -> Seq<(usize, usize)> {
        product(0, 4, 0, 4)
    }

    open spec fn base(&self, coord: (usize, usize)) -> Seq<Piece> {
        all_pieces()
    }

    open spec fn updates(&self, coord: (usize, usize), item: Piece) -> Seq<
        (Seq<(usize, usize)>, Rule),
    > {
        seq![(product(0, 4, 0, 4), Rule::Other(item.number() as usize))] + Seq::new(
            4,
            |i: int|
                (
                    Grid::neighbor((4, 4), coord, neighbors()[i]),
                    Rule::Fit(item.side(i), i as usize),
                ),
        )
    }

    fn update(&self, coord: (usize, usize), item: Piece) -> (out: Vec<
        (Vec<(usize, usize)>, Rule),
    >) {
        proof {
            use_type_invariant(self);
            lemma_product_contains(0, 4, 0, 4, coord);
        }
        let remove = Rule::Other(item.0);
        let all = self.grid.clone().into_iter();
        let mut out: Vec<(Vec<(usize, usize)>, Rule)> = Vec::new();
        out.push((all, remove));
        let offsets: [(isize, isize); 4] = [(0, -1), (1, 0), (0, 1), (-1, 0)];
        let ghost first = seq![(product(0, 4, 0, 4), remove)];
        let mut i: usize = 0;
        proof {
            assert(pairs_of(out@) =~= first + Seq::new(
                0,
                |i: int|
                    (
                        Grid::neighbor((4, 4), coord, neighbors()[i]),
                        Rule::Fit(item.side(i), i as usize),
                    ),
            ));
        }
        while i < 4
            invariant
                i <= 4,
                coord.0 < 4,
                coord.1 < 4,
                self.grid@ == (4usize, 4usize),
                first == seq![(product(0, 4, 0, 4), remove)],
                forall|k: int| 0 <= k < 4 ==> offsets[k] == #[trigger] neighbors()[k],
                pairs_of(out@) == first + Seq::new(
                    i as nat,
                    |i: int|
                        (
                            Grid::neighbor((4, 4), coord, neighbors()[i]),
                            Rule::Fit(item.side(i), i as usize),
                        ),
                ),
            decreases 4 - i,
        {
            proof {
                assert(offsets[i as int] == neighbors()[i as int]);
            }
            let ghost before = pairs_of(out@);
            let neighbor = self.grid.get(coord, offsets[i]);
            let rule = Self::fit(item, i);
            out.push((neighbor, rule));
            i += 1;
            proof {
                assert(pairs_of(out@) =~= before.push(
                    (Grid::neighbor((4, 4), coord, neighbors()[i - 1]), rule),
                ));
                assert(pairs_of(out@) =~= first + Seq::new(
                    i as nat,
                    |i: int|
                        (
                            Grid::neighbor((4, 4), coord, neighbors()[i]),
                            Rule::Fit(item.side(i), i as usize),
                        ),
                ));
            }
        }
        proof {
            let pairs = self.updates(coord, item);
            assert(pairs_of(out@) =~= pairs);
            assert forall|i: int, j: int|
                0 <= i < pairs.len() && 0 <= j < pairs[i].0.len() implies self.space().contains(
                #[trigger] pairs[i].0[j],
            ) by {
                lemma_product_contains(0, 4, 0, 4, pairs[i].0[j]);
                if i == 0 {
                    assert(product(0, 4, 0, 4).contains(pairs[i].0[j]));
                }
            }
        }
        out
    }

    fn get_coords(&self) -> (out: Vec<(usize, usize)>) {
        proof {
            use_type_invariant(self);
            lemma_product_distinct(0, 4, 0, 4);
        }
        self.grid.clone().into_iter()
    }

    fn get_initial(&self) -> (out: SearchState<(usize, usize), Piece, Restriction<Piece, Rule>>) {
        proof {
            use_type_invariant(self);
        }
        let mut puzzle: SearchState<(usize, usize), Piece, Restriction<Piece, Rule>> =
            SearchState::new();
        let coords = self.grid.clone().into_iter();
        let mut k: usize = 0;
        while k < coords.len()
            invariant
                k <= coords@.len(),
                coords@ == product(0, 4, 0, 4),
                forall|coord: (usize, usize)|
                    puzzle@.contains_key(coord) <==> coords@.take(k as int).contains(coord),
                forall|coord: (usize, usize)|
                    puzzle@.contains_key(coord) ==> #[trigger] puzzle@[coord] == (Domain {
                        rest: all_pieces(),
                        filters: Seq::<Restriction<Piece, Rule>>::empty(),
                    }),
            decreases coords.len() - k,
        {
            let coord = coords[k];
            let ghost before = coords@.take(k as int);
            puzzle.insert(coord, AccumulateFilter::new(board()));
            proof {
                let after = coords@.take(k + 1);
                assert(after == before.push(coord));
                assert forall|cell: (usize, usize)|
                    after.contains(cell) <==> before.contains(cell) || cell == coord by {
                    if before.contains(cell) {
                        let i = choose|i: int| 0 <= i < before.len() && before[i] == cell;
                        assert(after[i] == cell);
                    }
                    if cell == coord {
                        assert(after[k as int] == cell);
                    }
                }
            }
            k += 1;
        }
        proof {
            assert(coords@.take(k as int) == coords@);
        }
        puzzle
    }
}

/// A laid-out board of pieces.
pub struct Puzzle {
    puzzle: [[Piece; 4]; 4],
}

impl Puzzle {
    /// The pieces of the board, by cell.
    pub closed spec fn cells(&self) -> [[Piece; 4]; 4] {
        self.puzzle
    }

    /// The line `j` of the pictures of the first `k` pieces across the
    /// band `i`, a blank after each piece but the fourth.
    pub open spec fn line_upto(&self, i: int, j: int, k: nat) -> Seq<char>
        decreases k,
    {
        if k == 0 {
            Seq::empty()
        } else {
            self.line_upto(i, j, (k - 1) as nat) + self.cells()[k - 1][i].line(j) + (if k - 1
                != 3 {
                seq![' ']
            } else {
                Seq::empty()
            })
        }
    }

    /// The first `j` lines of the band `i`, a line break after each but
    /// the fourth.
    pub open spec fn band_upto(&self, i: int, j: nat) -> Seq<char>
        decreases j,
    {
        if j == 0 {
            Seq::empty()
        } else {
            self.band_upto(i, (j - 1) as nat) + self.line_upto(i, j - 1, 4) + (if j - 1 != 3 {
                seq!['\n']
            } else {
                Seq::empty()
            })
        }
    }

    /// The first `i` bands of the board, an empty line after each but
    /// the fourth.
    pub open spec fn text_upto(&self, i: nat) -> Seq<char>
        decreases i,
    {
        if i == 0 {
            Seq::empty()
        } else {
            self.text_upto((i - 1) as nat) + self.band_upto(i - 1, 4) + (if i - 1 != 3 {
                seq!['\n', '\n']
            } else {
                Seq::empty()
            })
        }
    }

    /// The picture of the board: four bands of four lines.
    pub open spec fn text(&self) -> Seq<char> {
        self.text_upto(4)
    }

    /// Draws the board.
    pub fn to_string(&self) -> (out: String)
        ensures
            out@ == self.text(),
    {
        let mut out = String::new();
        let mut i: usize = 0;
        while i < 4
            invariant
                i <= 4,
                out@ == self.text_upto(i as nat),
            decreases 4 - i,
        {
            let ghost above = out@;
            let mut j: usize = 0;
            while j < 4
                invariant
                    i < 4,
                    j <= 4,
                    out@ == above + self.band_upto(i as int, j as nat),
                decreases 4 - j,
            {
                let ghost before = out@;
                let mut k: usize = 0;
                while k < 4
                    invariant
                        i < 4,
                        j < 4,
                        k <= 4,
                        out@ == before + self.line_upto(i as int, j as int, k as nat),
                    decreases 4 - k,
                {
                    let ghost sofar = self.line_upto(i as int, j as int, k as nat);
                    let line = self.puzzle[k][i].get_line(j);
                    out.append(line.as_str());
                    if k != 3 {
                        out.append(" ");
                        proof {
                            reveal_strlit(" ");
                        }
                        assert(out@ =~= before + (sofar + line@ + seq![' ']));
                    } else {
                        assert(out@ =~= before + (sofar + line@ + Seq::empty()));
                    }
                    k += 1;
                }
                let ghost lines = self.band_upto(i as int, j as nat);
                let ghost line = self.line_upto(i as int, j as int, 4);
                if j != 3 {
                    out.append("\n");
                    proof {
                        reveal_strlit("\n");
                    }
                    assert(out@ =~= above + (lines + line + seq!['\n']));
                } else {
                    assert(out@ =~= above + (lines + line + Seq::empty()));
                }
                j += 1;
            }
            let ghost bands = self.text_upto(i as nat);
            let ghost band = self.band_upto(i as int, 4);
            if i != 3 {
                out.append("\n\n");
                proof {
                    reveal_strlit("\n\n");
                }
                assert(out@ =~= bands + band + seq!['\n', '\n']);
            } else {
                assert(out@ =~= bands + band + Seq::empty());
            }
            i += 1;
        }
        out
    }
}

/// An assignment of the cells of the puzzle has a place on the board
/// for each of its pieces.
pub proof fn lemma_solution_fits(solver: &Solver, solution: Seq<((usize, usize), Piece)>)
    requires
        coordinates_of(solution) == solver.space(),
    ensures
        Puzzle::fits(solution),
{
    assert forall|k: int| 0 <= k < solution.len() implies (#[trigger] solution[k]).0.0 < 4
        && solution[k].0.1 < 4 by {
        assert(coordinates_of(solution)[k] == solution[k].0);
        lemma_product_cell(0, 4, 0, 4, 0);
        lemma_product_cell(0, 4, 0, 4, k);
    }
}

impl FromCollapse for Puzzle {
    type Collapser = Solver;

    open spec fn fits(solution: Seq<((usize, usize), Piece)>) -> bool {
        forall|k: int|
            0 <= k < solution.len() ==> (#[trigger] solution[k]).0.0 < 4 && solution[k].0.1 < 4
    }

    open spec fn shows(&self, solution: Seq<((usize, usize), Piece)>) -> bool {
        forall|i: int, j: int|
            0 <= i < 4 && 0 <= j < 4 ==> #[trigger] self.cells()[i][j] == placed(
                solution,
                (i as usize, j as usize),
                Piece::first(),
            )
    }

    fn from_collapse(solution: Vec<((usize, usize), Piece)>) -> (out: Self) {
        let mut puzzle: [[Piece; 4]; 4] = [[Piece(0, 0); 4]; 4];
        let mut k: usize = 0;
        while k < solution.len()
            invariant
                k <= solution@.len(),
                Self::fits(solution@),
                forall|i: int, j: int|
                    0 <= i < 4 && 0 <= j < 4 ==> #[trigger] puzzle[i][j] == placed(
                        solution@.take(k as int),
                        (i as usize, j as usize),
                        Piece::first(),
                    ),
            decreases solution.len() - k,
        {
            let (coord, item) = solution[k];
            proof {
                assert(solution@[k as int].0.0 < 4);
                assert(solution@.take(k + 1).drop_last() == solution@.take(k as int));
                assert(solution@.take(k + 1).last() == solution@[k as int]);
            }
            let mut row = puzzle[coord.0];
            row[coord.1] = item;
            puzzle[coord.0] = row;
            k += 1;
        }
        proof {
            assert(solution@.take(k as int) == solution@);
        }
        Self { puzzle }
    }
}

} // verus!

use itertools::Itertools;
use vstd::arithmetic::div_mod::{
    lemma_fundamental_div_mod, lemma_fundamental_div_mod_converse, lemma_mod_pos_bound,
    lemma_multiply_divide_lt,
};
use vstd::prelude::*;

verus! {

/// The pairs of `l..r` and `t..b`: every first component with every
/// second one, the second running fastest.
pub open spec fn product(l: int, r: int, t: int, b: int) -> Seq<(usize, usize)> {
    if l < r && t < b {
        Seq::new(
            ((r - l) * (b - t)) as nat,
            |k: int| ((l + k / (b - t)) as usize, (t + k % (b - t)) as usize),
        )
    } else {
        Seq::empty()
    }
}

/// The pair at the place `k` of a product lies in both ranges.
pub proof fn lemma_product_cell(l: int, r: int, t: int, b: int, k: int)
    requires
        0 <= l < r <= usize::MAX,
        0 <= t < b <= usize::MAX,
        0 <= k < (r - l) * (b - t),
    ensures
        product(l, r, t, b).len() == (r - l) * (b - t),
        product(l, r, t, b)[k] == ((l + k / (b - t)) as usize, (t + k % (b - t)) as usize),
        l <= l + k / (b - t) < r,
        t <= t + k % (b - t) < b,
{
    let n = b - t;
    lemma_mod_pos_bound(k, n);
    lemma_fundamental_div_mod(k, n);
    assert((r - l) * n == n * (r - l)) by (nonlinear_arith);
    lemma_multiply_divide_lt(k, n, r - l);
    assert(0 <= k / n) by (nonlinear_arith)
        requires
            0 <= k,
            0 < n,
    ;
}

/// A product holds exactly the pairs whose components lie in the two
/// ranges.
pub proof fn lemma_product_contains(l: int, r: int, t: int, b: int, cell: (usize, usize))
    requires
        0 <= l <= r <= usize::MAX,
        0 <= t <= b <= usize::MAX,
    ensures
        product(l, r, t, b).contains(cell) <==> l <= cell.0 < r && t <= cell.1 < b,
{
    if l < r && t < b {
        let n = b - t;
        if product(l, r, t, b).contains(cell) {
            let k = choose|k: int| 0 <= k < product(l, r, t, b).len() && product(l, r, t, b)[k] == cell;
            assert((r - l) * n >= 0) by (nonlinear_arith)
                requires
                    r - l > 0,
                    n > 0,
            ;
            lemma_product_cell(l, r, t, b, k);
        }
        if l <= cell.0 < r && t <= cell.1 < b {
            let q = cell.0 - l;
            let k = q * n + (cell.1 - t);
            lemma_fundamental_div_mod_converse(k, n, q, cell.1 - t);
            assert(0 <= k < (r - l) * n) by (nonlinear_arith)
                requires
                    0 <= q < r - l,
                    0 <= cell.1 - t < n,
                    k == q * n + (cell.1 - t),
            ;
            lemma_product_cell(l, r, t, b, k);
            assert(product(l, r, t, b)[k] == cell);
        }
    }
}

/// No pair occurs twice in a product.
pub proof fn lemma_product_distinct(l: int, r: int, t: int, b: int)
    requires
        0 <= l <= r <= usize::MAX,
        0 <= t <= b <= usize::MAX,
    ensures
        product(l, r, t, b).no_duplicates(),
{
    if l < r && t < b {
        let n = b - t;
        assert((r - l) * n >= 0) by (nonlinear_arith)
            requires
                r - l > 0,
                n > 0,
        ;
        assert forall|i: int, j: int|
            0 <= i < product(l, r, t, b).len() && 0 <= j < product(l, r, t, b).len() && i
                != j implies product(l, r, t, b)[i] != product(l, r, t, b)[j] by {
            lemma_product_cell(l, r, t, b, i);
            lemma_product_cell(l, r, t, b, j);
            lemma_fundamental_div_mod(i, n);
            lemma_fundamental_div_mod(j, n);
        }
    }
}

/// Calls `Itertools::cartesian_product` on the ranges `l..r` and `t..b`
/// and collects what it yields. The adaptor pairs each item of the
/// first range, in order, with every item of the second, in order; an
/// empty range on either side leaves nothing.
#[verifier::external_body]
pub(crate) fn cartesian_product(l: usize, r: usize, t: usize, b: usize) -> (out: Vec<(usize, usize)>)
    requires
        l < r && t < b ==> (r - l) * (b - t) <= usize::MAX,
    ensures
        out@ == product(l as int, r as int, t as int, b as int),
{
    (l..r).cartesian_product(t..b).collect()
}

/// A rectangle of cells, addressed by pairs below its two extents.
pub struct Grid(usize, usize);

impl Clone for Grid {
    fn clone(&self) -> (out: Self)
        ensures
            out@ == self@,
    {
        Self(self.0, self.1)
    }
}

impl View for Grid {
    type V = (usize, usize);

    closed spec fn view(&self) -> (usize, usize) {
        (self.0, self.1)
    }
}

impl Grid {
    /// A grid of the extents `x` and `y`.
    pub fn new(x: usize, y: usize) -> (out: Self)
        ensures
            out@ == (x, y),
    {
        Self(x, y)
    }

    /// The nine cells whose first component is `x`.
    pub fn row(&self, x: usize) -> (out: Vec<(usize, usize)>)
        ensures
            out@ == Seq::new(9, |j: int| (x, j as usize)),
    {
        let mut out: Vec<(usize, usize)> = Vec::new();
        let mut j: usize = 0;
        while j < 9
            invariant
                j <= 9,
                out@ == Seq::new(j as nat, |k: int| (x, k as usize)),
            decreases 9 - j,
        {
            out.push((x, j));
            j += 1;
            assert(out@ =~= Seq::new(j as nat, |k: int| (x, k as usize)));
        }
        out
    }

    /// The nine cells whose second component is `y`.
    pub fn column(&self, y: usize) -> (out: Vec<(usize, usize)>)
        ensures
            out@ == Seq::new(9, |i: int| (i as usize, y)),
    {
        let mut out: Vec<(usize, usize)> = Vec::new();
        let mut i: usize = 0;
        while i < 9
            invariant
                i <= 9,
                out@ == Seq::new(i as nat, |k: int| (k as usize, y)),
            decreases 9 - i,
        {
            out.push((i, y));
            i += 1;
            assert(out@ =~= Seq::new(i as nat, |k: int| (k as usize, y)));
        }
        out
    }

    /// The first corner of the block of the size `size` that `at` lies
    /// in. Both components are multiples of the first extent of the
    /// size; the second extent divides the second component.
    pub open spec fn corner(at: (usize, usize), size: (usize, usize)) -> (int, int) {
        (size.0 * (at.0 as int / size.0 as int), size.0 * (at.1 as int / size.1 as int))
    }

    /// The cells of the block of the size `size` that `at` lies in.
    pub fn block(&self, at: (usize, usize), size: (usize, usize)) -> (out: Vec<(usize, usize)>)
        requires
            size.0 > 0,
            size.1 > 0,
            Self::corner(at, size).0 + size.0 <= usize::MAX,
            Self::corner(at, size).1 + size.1 <= usize::MAX,
            size.0 * size.1 <= usize::MAX,
        ensures
            out@ == product(
                Self::corner(at, size).0,
                Self::corner(at, size).0 + size.0,
                Self::corner(at, size).1,
                Self::corner(at, size).1 + size.1,
            ),
    {
        let (x, y) = at;
        let (w, h) = size;
        let l = w * (x / w);
        let t = w * (y / h);
        let r = l + w;
        let b = t + h;
        cartesian_product(l, r, t, b)
    }

    /// The cell at the offset `offset` from `at`, if the grid has it.
    pub fn get(&self, at: (usize, usize), offset: (isize, isize)) -> (out: Vec<(usize, usize)>)
        requires
            at.0 <= isize::MAX,
            at.1 <= isize::MAX,
            self@.0 <= isize::MAX,
            self@.1 <= isize::MAX,
            isize::MIN <= at.0 + offset.0 <= isize::MAX,
            isize::MIN <= at.1 + offset.1 <= isize::MAX,
        ensures
            out@ == Self::neighbor(self@, at, offset),
    {
        let x = (at.0 as isize) + offset.0;
        let y = (at.1 as isize) + offset.1;
        let mut out: Vec<(usize, usize)> = Vec::new();
        if x >= 0 && y >= 0 && x < (self.0 as isize) && y < (self.1 as isize) {
            out.push((x as usize, y as usize));
        }
        out
    }

    /// The cell at the offset `offset` from `at` alone, or nothing where
    /// that cell lies outside the extents.
    pub open spec fn neighbor(extents: (usize, usize), at: (usize, usize), offset: (isize, isize)) -> Seq<
        (usize, usize),
    > {
        if 0 <= at.0 + offset.0 < extents.0 && 0 <= at.1 + offset.1 < extents.1 {
            seq![((at.0 + offset.0) as usize, (at.1 + offset.1) as usize)]
        } else {
            Seq::empty()
        }
    }

    /// Every cell of the grid, the second component running fastest.
    pub fn into_iter(self) -> (out: Vec<(usize, usize)>)
        requires
            self@.0 * self@.1 <= usize::MAX,
        ensures
            out@ == product(0, self@.0 as int, 0, self@.1 as int),
    {
        cartesian_product(0, self.0, 0, self.1)
    }
}

} // verus!

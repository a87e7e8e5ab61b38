//! Integer matrices that map tensor indices, stored column by column.
use crate::shape::idim;
use vstd::arithmetic::mul::*;
use vstd::prelude::*;

verus! {

/// A matrix of `idim` in column-major order.
pub struct Affine {
    nrows: usize,
    ncols: usize,
    data: Vec<idim>,
}

/// Position of entry `(r, c)` in the column-major storage of a matrix with
/// `nrows` rows.
pub open spec fn position(nrows: nat, r: int, c: int) -> int {
    c * nrows + r
}

/// The sum of the products of the entries of `row` and `v` before `n`.
pub open spec fn dot(row: spec_fn(int) -> int, v: spec_fn(int) -> int, n: nat) -> int
    decreases n,
{
    if n == 0 {
        0
    } else {
        dot(row, v, (n - 1) as nat) + row(n - 1) * v(n - 1)
    }
}

/// Where `row` is 1 at column `k` and 0 elsewhere, the sum picks entry `k`.
pub proof fn lemma_dot_unit(row: spec_fn(int) -> int, v: spec_fn(int) -> int, n: nat, k: int)
    requires
        0 <= k,
        forall|c: int| 0 <= c < n ==> #[trigger] row(c) == if c == k { 1int } else { 0 },
    ensures
        dot(row, v, n) == if k < n { v(k) } else { 0 },
    decreases n,
{
    if n > 0 {
        lemma_dot_unit(row, v, (n - 1) as nat, k);
        assert(row(n - 1) * v(n - 1) == if n - 1 == k { v(n - 1) } else { 0 }) by {
            lemma_mul_basics(v(n - 1));
        }
    }
}

/// Entries of the matrix lie inside the storage, each at its own place.
pub proof fn lemma_position(nrows: nat, ncols: nat, r: int, c: int)
    requires
        0 <= r < nrows,
        0 <= c < ncols,
    ensures
        0 <= position(nrows, r, c) < nrows * ncols,
        position(nrows, r, c) % (nrows as int) == r,
        position(nrows, r, c) / (nrows as int) == c,
{
    assert(0 <= c * nrows) by (nonlinear_arith)
        requires
            0 <= c,
    ;
    assert((c + 1) * nrows <= ncols * nrows) by (nonlinear_arith)
        requires
            c + 1 <= ncols,
    ;
    assert((c + 1) * nrows == c * nrows + nrows) by (nonlinear_arith);
    assert(nrows * ncols == ncols * nrows) by (nonlinear_arith);
    vstd::arithmetic::div_mod::lemma_fundamental_div_mod_converse(
        position(nrows, r, c),
        nrows as int,
        c,
        r,
    );
}

impl Affine {
    /// Number of rows.
    pub closed spec fn nrows(&self) -> nat {
        self.nrows as nat
    }

    /// Number of columns.
    pub closed spec fn ncols(&self) -> nat {
        self.ncols as nat
    }

    /// The entries, column by column.
    pub closed spec fn entries(&self) -> Seq<idim> {
        self.data@
    }

    /// The storage holds exactly one entry for each row and column.
    #[verifier::type_invariant]
    spec fn well_formed(&self) -> bool {
        self.data@.len() == self.nrows * self.ncols
    }

    /// The entry in row `r` and column `c`.
    pub open spec fn entry(&self, r: int, c: int) -> idim {
        self.entries()[position(self.nrows(), r, c)]
    }

    /// Row `r` of the product of the matrix and the column vector `v`.
    pub open spec fn apply(&self, v: spec_fn(int) -> int, r: int) -> int {
        dot(|c: int| self.entry(r, c) as int, v, self.ncols())
    }

    /// The product of the matrix and the column vector `v`.
    pub open spec fn image(&self, v: spec_fn(int) -> int) -> spec_fn(int) -> int {
        |r: int| self.apply(v, r)
    }

    /// The matrix whose entry in row `r` and column `c` is `f(r, c)`.
    pub fn from_fn<F: Fn(usize, usize) -> idim>(nrows: usize, ncols: usize, f: F) -> (m: Affine)
        requires
            forall|r: usize, c: usize|
                r < nrows && c < ncols ==> #[trigger] call_requires(f, (r, c)),
        ensures
            m.nrows() == nrows,
            m.ncols() == ncols,
            m.entries().len() == nrows * ncols,
            forall|r: usize, c: usize|
                r < nrows && c < ncols ==> call_ensures(
                    f,
                    (r, c),
                    #[trigger] m.entry(r as int, c as int),
                ),
            forall|r: int, c: int| #[trigger] m.entry(r, c) == m.entries()[c * nrows + r],
    {
        let mut data: Vec<idim> = Vec::new();
        let mut c: usize = 0;
        while c < ncols
            invariant
                c <= ncols,
                data@.len() == c * nrows,
                forall|r: usize, k: usize|
                    r < nrows && k < ncols ==> #[trigger] call_requires(f, (r, k)),
                forall|r: usize, k: usize|
                    r < nrows && k < c ==> call_ensures(
                        f,
                        (r, k),
                        #[trigger] data@[position(nrows as nat, r as int, k as int)],
                    ),
            decreases ncols - c,
        {
            let mut r: usize = 0;
            while r < nrows
                invariant
                    r <= nrows,
                    c < ncols,
                    data@.len() == c * nrows + r,
                    forall|r: usize, k: usize|
                        r < nrows && k < ncols ==> #[trigger] call_requires(f, (r, k)),
                    forall|q: usize, k: usize|
                        q < nrows && (k < c || k == c && q < r) ==> call_ensures(
                            f,
                            (q, k),
                            #[trigger] data@[position(nrows as nat, q as int, k as int)],
                        ),
                decreases nrows - r,
            {
                let ghost before = data@;
                data.push(f(r, c));
                proof {
                    assert forall|q: usize, k: usize|
                        q < nrows && (k < c || k == c && q < r + 1) implies call_ensures(
                        f,
                        (q, k),
                        #[trigger] data@[position(nrows as nat, q as int, k as int)],
                    ) by {
                        let at = position(nrows as nat, q as int, k as int);
                        if k < c {
                            lemma_position(nrows as nat, c as nat, q as int, k as int);
                            assert(nrows * c == c * nrows) by (nonlinear_arith);
                        }
                        if !(k == c && q == r) {
                            assert(data@[at] == before[at]);
                        }
                    }
                }
                r += 1;
            }
            assert(c * nrows + nrows == (c + 1) * nrows) by (nonlinear_arith);
            c += 1;
        }
        assert(ncols * nrows == nrows * ncols) by (nonlinear_arith);
        Affine { nrows, ncols, data }
    }

    /// The entries, column by column.
    pub fn as_slice(&self) -> (entries: &[idim])
        ensures
            entries@ == self.entries(),
    {
        self.data.as_slice()
    }
}

} // verus!

//! Reordering of the axes of a tensor.
use crate::affine::{lemma_dot_unit, Affine};
use crate::operator::{Operator, Parts};
use crate::shape::{udim, Shape};
use vstd::prelude::*;

verus! {

/// Which axis of the input stands at each axis of the output.
type Permutation = Shape;

/// Puts axis `permutation[i]` of the input at axis `i` of the output.
pub struct Transpose(Permutation);

/// The items of `input` in the order that `permutation` names.
pub open spec fn permuted<T>(permutation: Seq<udim>, input: Seq<T>) -> Seq<T> {
    Seq::new(permutation.len(), |i: int| input[permutation[i] as int])
}

/// Every named axis is an axis of an input with `n` axes.
pub open spec fn names_axes(permutation: Seq<udim>, n: nat) -> bool {
    forall|i: int| 0 <= i < permutation.len() ==> #[trigger] permutation[i] < n
}

/// The column that holds the 1 of row `r`: the named axis, and the last column
/// for the row after the axes.
pub open spec fn source_column(permutation: Seq<udim>, r: int) -> int {
    if r < permutation.len() {
        permutation[r] as int
    } else {
        r
    }
}

/// `m` is the square matrix, one larger than the number of axes, that selects
/// in each row the named axis.
pub open spec fn selects(m: Affine, permutation: Seq<udim>) -> bool {
    let n = permutation.len() + 1;
    &&& m.nrows() == n
    &&& m.ncols() == n
    &&& m.entries().len() == n * n
    &&& forall|r: int, c: int|
        0 <= r < n && 0 <= c < n ==> #[trigger] m.entry(r, c) == if c == source_column(
            permutation,
            r,
        ) {
            1int
        } else {
            0
        }
}

impl Transpose {
    /// The axes of the input in the order of the output.
    pub closed spec fn permutation(&self) -> Seq<udim> {
        self.0@
    }

    /// The operator that puts axis `permutation[i]` at axis `i`.
    pub fn new(permutation: &[udim]) -> (transpose: Transpose)
        ensures
            transpose.permutation() == permutation@,
    {
        Transpose(Permutation::from_slice(permutation))
    }
}

impl Operator for Transpose {
    open spec fn accepts(&self, input: Seq<udim>) -> bool {
        let n = input.len();
        &&& n == self.permutation().len()
        &&& names_axes(self.permutation(), n)
        &&& n < usize::MAX
    }

    open spec fn produces(&self, input: Seq<udim>, output: Seq<(Shape, Affine)>) -> bool {
        &&& output.len() == 1
        &&& output[0].0@ == permuted(self.permutation(), input)
        &&& selects(output[0].1, self.permutation())
    }

    fn build(&self, input: &[udim]) -> (parts: Parts)
        ensures
            parts@.len() == 1,
            parts@[0].0@.len() == input@.len(),
            forall|i: int|
                0 <= i < input@.len() ==> #[trigger] parts@[0].0@[i]
                    == input@[self.permutation()[i] as int],
            parts@[0].1.entries().len() == (input@.len() + 1) * (input@.len() + 1),
            forall|r: int, c: int|
                0 <= r <= input@.len() && 0 <= c <= input@.len() ==> {
                    let e = parts@[0].1.entries()[c * (input@.len() + 1) + r];
                    &&& #[trigger] parts@[0].1.entry(r, c) == e
                    &&& r < input@.len() && c == self.permutation()[r] ==> e == 1
                    &&& r < input@.len() && c != self.permutation()[r] ==> e == 0
                    &&& r == input@.len() && c == input@.len() ==> e == 1
                    &&& r == input@.len() && c != input@.len() ==> e == 0
                },
    {
        let axes: &[udim] = self.0.as_slice();
        let n: usize = axes.len();
        let mut dims: Vec<udim> = Vec::new();
        let mut i: usize = 0;
        while i < n
            invariant
                i <= n,
                n == axes@.len(),
                axes@ == self.permutation(),
                self.accepts(input@),
                dims@ == permuted(axes@.take(i as int), input@),
            decreases n - i,
        {
            dims.push(input[axes[i] as usize]);
            i += 1;
            assert(dims@ =~= permuted(axes@.take(i as int), input@));
        }
        assert(axes@.take(n as int) =~= axes@);
        let select = |r: usize, c: usize| -> (e: i32)
            requires
                axes@.len() == n,
            ensures
                e == if c == source_column(axes@, r as int) {
                    1int
                } else {
                    0
                },
            {
                let source: usize = if r < n {
                    axes[r] as usize
                } else {
                    r
                };
                if c == source {
                    1
                } else {
                    0
                }
            };
        let affine = Affine::from_fn(n + 1, n + 1, select);
        proof {
            assert forall|r: int, c: int| 0 <= r < n + 1 && 0 <= c < n + 1 implies #[trigger] affine.entry(
                r,
                c,
            ) == if c == source_column(axes@, r) {
                1int
            } else {
                0
            } by {
                let e = affine.entry((r as usize) as int, (c as usize) as int);
                assert(call_ensures(select, (r as usize, c as usize), e));
            }
        }
        Parts::one(Shape::from_slice(dims.as_slice()), affine)
    }
}

/// The matrix of a transposition moves the entries of a vector as the
/// transposition moves the axes, and keeps the entry after the axes.
pub proof fn law_affine_moves_entries(m: Affine, permutation: Seq<udim>, v: spec_fn(int) -> int)
    requires
        selects(m, permutation),
        names_axes(permutation, permutation.len()),
    ensures
        forall|r: int|
            0 <= r <= permutation.len() ==> #[trigger] m.apply(v, r) == v(
                source_column(permutation, r),
            ),
{
    assert forall|r: int| 0 <= r <= permutation.len() implies #[trigger] m.apply(v, r) == v(
        source_column(permutation, r),
    ) by {
        let k = source_column(permutation, r);
        let row = |c: int| m.entry(r, c) as int;
        if r < permutation.len() {
            assert(permutation[r] < permutation.len());
        }
        lemma_dot_unit(row, v, m.ncols(), k);
    }
}

/// Axis `i` of the output has the length of the input axis that stands at place
/// `i` of the permutation. Of the entries, stored column by column, those of
/// row `i` are 1 in the column of that axis and 0 elsewhere, and the last row
/// has its 1 in the last column.
pub proof fn law_output_axes_are_the_named_ones(
    transpose: Transpose,
    input: Seq<udim>,
    output: Seq<(Shape, Affine)>,
    i: int,
    c: int,
)
    requires
        input.len() == transpose.permutation().len() < usize::MAX,
        forall|k: int|
            0 <= k < input.len() ==> #[trigger] transpose.permutation()[k] < input.len(),
        transpose.produces(input, output),
        0 <= i < input.len(),
        0 <= c <= input.len(),
    ensures
        transpose.accepts(input),
        output.len() == 1,
        output[0].0@.len() == input.len(),
        output[0].0@[i] == input[transpose.permutation()[i] as int],
        output[0].1.entries().len() == (input.len() + 1) * (input.len() + 1),
        output[0].1.entries()[c * (input.len() + 1) + i] == 1 <==> c == transpose.permutation()[i],
        output[0].1.entries()[c * (input.len() + 1) + i] == 0 <==> c != transpose.permutation()[i],
        output[0].1.entries()[c * (input.len() + 1) + input.len()] == 1 <==> c == input.len(),
        output[0].1.entries()[c * (input.len() + 1) + input.len()] == 0 <==> c != input.len(),
{
    let m = output[0].1;
    assert(m.entry(i, c) == m.entries()[c * (input.len() + 1) + i]);
    assert(m.entry(input.len() as int, c) == m.entries()[c * (input.len() + 1) + input.len()]);
}

/// The shape that a transposition produces is the image of the input shape
/// under the matrix that it produces.
pub proof fn law_shape_is_image(
    transpose: Transpose,
    input: Seq<udim>,
    output: Seq<(Shape, Affine)>,
)
    requires
        transpose.accepts(input),
        transpose.produces(input, output),
    ensures
        forall|r: int|
            0 <= r < input.len() ==> #[trigger] output[0].0@[r] == output[0].1.apply(
                |c: int| input[c] as int,
                r,
            ),
{
    law_affine_moves_entries(output[0].1, transpose.permutation(), |c: int| input[c] as int);
}

/// Two transpositions in turn do what the one does whose permutation is the
/// first permutation in the order of the second.
pub proof fn law_transposes_compose(
    first: Transpose,
    second: Transpose,
    both: Transpose,
    input: Seq<udim>,
    middle: Seq<(Shape, Affine)>,
    output: Seq<(Shape, Affine)>,
    direct: Seq<(Shape, Affine)>,
    v: spec_fn(int) -> int,
)
    requires
        first.accepts(input),
        first.produces(input, middle),
        second.accepts(middle[0].0@),
        second.produces(middle[0].0@, output),
        both.permutation() == permuted(second.permutation(), first.permutation()),
        both.produces(input, direct),
    ensures
        both.accepts(input),
        output[0].0@ == direct[0].0@,
        forall|r: int|
            0 <= r <= input.len() ==> #[trigger] output[0].1.apply(
                middle[0].1.image(v),
                r,
            ) == direct[0].1.apply(v, r),
{
    let p = first.permutation();
    let q = second.permutation();
    let pq = both.permutation();
    assert forall|i: int| 0 <= i < pq.len() implies #[trigger] pq[i] < input.len() by {
        assert(q[i] < p.len());
        assert(pq[i] == p[q[i] as int]);
    }
    assert(output[0].0@ =~= direct[0].0@) by {
        assert forall|i: int| 0 <= i < q.len() implies output[0].0@[i] == direct[0].0@[i] by {
            assert(q[i] < p.len());
        }
    }
    let inner = middle[0].1.image(v);
    law_affine_moves_entries(middle[0].1, p, v);
    law_affine_moves_entries(output[0].1, q, inner);
    law_affine_moves_entries(direct[0].1, pq, v);
    assert forall|r: int| 0 <= r <= input.len() implies #[trigger] output[0].1.apply(inner, r)
        == direct[0].1.apply(v, r) by {
        let k = source_column(q, r);
        if r < q.len() {
            assert(q[r] < p.len());
        }
        assert(inner(k) == middle[0].1.apply(v, k));
    }
}

/// A transposition with the inverse permutation restores the shape and every
/// index vector.
pub proof fn law_inverse_restores(
    forward: Transpose,
    back: Transpose,
    input: Seq<udim>,
    middle: Seq<(Shape, Affine)>,
    output: Seq<(Shape, Affine)>,
    v: spec_fn(int) -> int,
)
    requires
        forward.accepts(input),
        forward.produces(input, middle),
        back.accepts(middle[0].0@),
        back.produces(middle[0].0@, output),
        forall|i: int|
            0 <= i < input.len() ==> forward.permutation()[#[trigger] back.permutation()[i] as int]
                == i,
    ensures
        output[0].0@ == input,
        forall|r: int|
            0 <= r <= input.len() ==> #[trigger] output[0].1.apply(
                middle[0].1.image(v),
                r,
            ) == v(r),
{
    let p = forward.permutation();
    let q = back.permutation();
    assert(output[0].0@ =~= input) by {
        assert forall|i: int| 0 <= i < input.len() implies output[0].0@[i] == input[i] by {
            assert(q[i] < p.len());
        }
    }
    let inner = middle[0].1.image(v);
    law_affine_moves_entries(middle[0].1, p, v);
    law_affine_moves_entries(output[0].1, q, inner);
    assert forall|r: int| 0 <= r <= input.len() implies #[trigger] output[0].1.apply(inner, r) == v(
        r,
    ) by {
        let k = source_column(q, r);
        if r < q.len() {
            assert(q[r] < p.len());
        }
        assert(inner(k) == middle[0].1.apply(v, k));
    }
}

/// The permutation that names every axis in its place changes neither the shape
/// nor any index vector.
pub proof fn law_identity_keeps(
    transpose: Transpose,
    input: Seq<udim>,
    output: Seq<(Shape, Affine)>,
    v: spec_fn(int) -> int,
)
    requires
        transpose.accepts(input),
        transpose.produces(input, output),
        forall|i: int| 0 <= i < input.len() ==> #[trigger] transpose.permutation()[i] == i,
    ensures
        output[0].0@ == input,
        forall|r: int| 0 <= r <= input.len() ==> #[trigger] output[0].1.apply(v, r) == v(r),
{
    assert(output[0].0@ =~= input);
    law_affine_moves_entries(output[0].1, transpose.permutation(), v);
}

} // verus!

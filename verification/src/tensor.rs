//! Contiguous tensors and the storage that they need.
use crate::data_type::DataType;
use crate::shape::{udim, Shape};
use vstd::prelude::*;

verus! {

/// A contiguous tensor to be stored in `bytes` bytes.
pub struct Tensor {
    /// The type of the elements.
    pub data_type: DataType,
    /// The lengths of the axes.
    pub shape: Shape,
    /// The size of the storage.
    pub bytes: usize,
}

/// The product of the lengths of the axes.
pub open spec fn product(shape: Seq<udim>) -> nat
    decreases shape.len(),
{
    if shape.len() == 0 {
        1
    } else {
        product(shape.drop_last()) * shape.last() as nat
    }
}

/// Multiplying the lengths from the outermost axis inwards never leaves `udim`.
pub open spec fn product_fits(shape: Seq<udim>) -> bool {
    forall|k: int| 0 <= k <= shape.len() ==> product(#[trigger] shape.take(k)) <= udim::MAX
}

/// A contiguous tensor has a number of elements that `udim` holds and a number
/// of bytes that `usize` holds.
pub open spec fn storable(dt: DataType, shape: Seq<udim>) -> bool {
    product_fits(shape) && product(shape) * dt.bytes() <= usize::MAX
}

impl Tensor {
    /// The storage holds exactly the elements.
    pub open spec fn well_formed(&self) -> bool {
        &&& storable(self.data_type, self.shape@)
        &&& self.bytes == product(self.shape@) * self.data_type.bytes()
    }
}

/// The number of bytes that a contiguous tensor takes, if it can be stored.
pub fn byte_len(dt: DataType, shape: &[udim]) -> (bytes: Option<usize>)
    ensures
        bytes is Some <==> storable(dt, shape@),
        bytes matches Some(n) ==> n == product(shape@) * dt.bytes(),
{
    let mut count: udim = 1;
    let mut k: usize = 0;
    while k < shape.len()
        invariant
            k <= shape@.len(),
            count == product(shape@.take(k as int)),
            forall|i: int| 0 <= i <= k ==> product(#[trigger] shape@.take(i)) <= udim::MAX,
        decreases shape@.len() - k,
    {
        let ghost next = shape@.take(k + 1);
        proof {
            assert(next.drop_last() =~= shape@.take(k as int));
            assert(product(next) == count * shape@[k as int]);
        }
        match count.checked_mul(shape[k]) {
            Some(n) => {
                count = n;
            },
            None => {
                return None;
            },
        }
        k += 1;
    }
    assert(shape@.take(k as int) =~= shape@);
    (count as usize).checked_mul(dt.size())
}

/// A contiguous tensor with the given shape.
pub fn tensor(dt: DataType, shape: &[udim]) -> (t: Tensor)
    requires
        storable(dt, shape@),
    ensures
        t.data_type == dt,
        t.shape@ == shape@,
        t.bytes == product(shape@) * dt.bytes(),
        t.well_formed(),
{
    let bytes: usize = byte_len(dt, shape).unwrap();
    Tensor { data_type: dt, shape: Shape::from_slice(shape), bytes }
}

/// A tensor without axes has one element, and one with a single axis has as
/// many as the axis is long.
pub proof fn law_single_axis(n: udim)
    ensures
        product(Seq::empty()) == 1,
        product(seq![n]) == n,
{
    assert(seq![n].drop_last() =~= Seq::empty());
    assert(product(Seq::empty()) == 1);
    assert(product(seq![n]) == product(Seq::empty()) * n as nat);
    assert(1 * n as nat == n) by (nonlinear_arith);
}

/// The number of elements of a tensor is that of its outer axes times that of
/// its inner ones, wherever the axes are divided.
pub proof fn law_axes_multiply(outer: Seq<udim>, inner: Seq<udim>)
    ensures
        product(outer + inner) == product(outer) * product(inner),
    decreases inner.len(),
{
    if inner.len() == 0 {
        assert(outer + inner =~= outer);
        assert(product(outer) * 1 == product(outer)) by (nonlinear_arith);
    } else {
        let last = inner.last() as nat;
        law_axes_multiply(outer, inner.drop_last());
        assert((outer + inner).drop_last() =~= outer + inner.drop_last());
        let a = product(outer);
        let b = product(inner.drop_last());
        assert(a * b * last == a * (b * last)) by (nonlinear_arith);
    }
}

/// A tensor can be stored with one more axis exactly where the outer axes can be
/// multiplied, the number of elements with the new axis fits an axis and their
/// bytes fit a size.
pub proof fn law_storable_axis_by_axis(dt: DataType, outer: Seq<udim>, n: udim)
    ensures
        storable(dt, Seq::empty()),
        storable(dt, outer.push(n)) <==> product_fits(outer) && product(outer) * n <= udim::MAX
            && product(outer) * n * dt.bytes() <= usize::MAX,
        product_fits(outer.push(n)) <==> product_fits(outer) && product(outer) * n <= udim::MAX,
        product_fits(Seq::empty()),
{
    let none = Seq::<udim>::empty();
    assert forall|k: int| 0 <= k <= none.len() implies product(#[trigger] none.take(k))
        <= udim::MAX by {
        assert(none.take(k) =~= none);
    }
    assert(product(none) == 1);
    let width = dt.bytes();
    assert(product(none) * width == width) by (nonlinear_arith)
        requires
            product(none) == 1,
    ;
    assert(width <= 4);
    let all = outer.push(n);
    assert(all.drop_last() =~= outer);
    assert(product(all) == product(outer) * n as nat);
    assert(all.take(all.len() as int) =~= all);
    assert forall|k: int| 0 <= k <= outer.len() implies #[trigger] all.take(k) == outer.take(
        k,
    ) by {
        assert(all.take(k) =~= outer.take(k));
    }
    if product_fits(all) {
        assert forall|k: int| 0 <= k <= outer.len() implies product(#[trigger] outer.take(k))
            <= udim::MAX by {
            assert(all.take(k) == outer.take(k));
        }
    }
}

/// A table has as many elements as it has rows times columns, and can be stored
/// where that number fits an axis and its bytes a size.
pub proof fn law_table_in_numbers(dt: DataType, a: udim, b: udim)
    ensures
        product(seq![a, b]) == a * b,
        storable(dt, seq![a, b]) <==> a * b <= udim::MAX && a * b * dt.bytes() <= usize::MAX,
{
    law_single_axis(a);
    law_storable_axis_by_axis(dt, Seq::empty(), a);
    law_storable_axis_by_axis(dt, seq![a], b);
    assert(Seq::<udim>::empty().push(a) =~= seq![a]);
    assert(seq![a].push(b) =~= seq![a, b]);
    assert(seq![a, b].drop_last() =~= seq![a]);
    assert(product(seq![a, b]) == product(seq![a]) * b as nat);
    assert(product(Seq::<udim>::empty()) * a == a) by (nonlinear_arith)
        requires
            product(Seq::<udim>::empty()) == 1,
    ;
}

/// The same of a tensor of three axes.
pub proof fn law_block_in_numbers(dt: DataType, a: udim, b: udim, c: udim)
    ensures
        product(seq![a, b, c]) == a * b * c,
        storable(dt, seq![a, b, c]) <==> a * b <= udim::MAX && a * b * c <= udim::MAX && a * b * c
            * dt.bytes() <= usize::MAX,
        product_fits(seq![a, b, c]) <==> a * b <= udim::MAX && a * b * c <= udim::MAX,
{
    law_table_in_numbers(dt, a, b);
    law_single_axis(a);
    law_storable_axis_by_axis(dt, Seq::empty(), a);
    law_storable_axis_by_axis(dt, seq![a], b);
    law_storable_axis_by_axis(dt, seq![a, b], c);
    assert(Seq::<udim>::empty().push(a) =~= seq![a]);
    assert(seq![a].push(b) =~= seq![a, b]);
    assert(seq![a, b].push(c) =~= seq![a, b, c]);
    assert(seq![a, b, c].drop_last() =~= seq![a, b]);
    assert(product(Seq::<udim>::empty()) * a == a) by (nonlinear_arith)
        requires
            product(Seq::<udim>::empty()) == 1,
    ;
}

/// The same of a tensor of four axes.
pub proof fn law_stack_in_numbers(dt: DataType, a: udim, b: udim, c: udim, d: udim)
    ensures
        product(seq![a, b, c, d]) == a * b * c * d,
        storable(dt, seq![a, b, c, d]) <==> a * b <= udim::MAX && a * b * c <= udim::MAX && a * b
            * c * d <= udim::MAX && a * b * c * d * dt.bytes() <= usize::MAX,
{
    law_block_in_numbers(dt, a, b, c);
    law_storable_axis_by_axis(dt, seq![a, b, c], d);
    assert(seq![a, b, c].push(d) =~= seq![a, b, c, d]);
    assert(seq![a, b, c, d].drop_last() =~= seq![a, b, c]);
}

/// Where no axis is empty, a tensor can be stored exactly where the number of
/// its elements fits an axis and the number of its bytes a size.
pub proof fn law_storable_by_count(dt: DataType, shape: Seq<udim>)
    requires
        forall|i: int| 0 <= i < shape.len() ==> #[trigger] shape[i] > 0,
    ensures
        storable(dt, shape) <==> product(shape) <= udim::MAX && product(shape) * dt.bytes()
            <= usize::MAX,
{
    assert(shape.take(shape.len() as int) =~= shape);
    assert forall|k: int| 0 <= k <= shape.len() implies product(#[trigger] shape.take(k))
        <= product(shape) by {
        let outer = shape.take(k);
        let inner = shape.skip(k);
        assert(outer + inner =~= shape);
        law_axes_multiply(outer, inner);
        lemma_product_positive(inner);
        assert(product(outer) <= product(outer) * product(inner)) by (nonlinear_arith)
            requires
                product(inner) >= 1,
        ;
    }
}

proof fn lemma_product_positive(shape: Seq<udim>)
    requires
        forall|i: int| 0 <= i < shape.len() ==> #[trigger] shape[i] > 0,
    ensures
        product(shape) >= 1,
    decreases shape.len(),
{
    if shape.len() > 0 {
        lemma_product_positive(shape.drop_last());
        assert(shape.last() > 0);
        let a = product(shape.drop_last());
        let b = shape.last() as nat;
        assert(a * b >= 1) by (nonlinear_arith)
            requires
                a >= 1,
                b >= 1,
        ;
    }
}

} // verus!

//! What running a pass does to memory, whatever the kernels compute.
//!
//! A kernel is taken as any function of the cells that its call reads: with the
//! tokens and places of a batch given, it decides the new contents of the cells
//! that the call writes.
use crate::expr::{volume, Buffer, Expr, Name, Range, Ranges};
use crate::model::{ModelConfig, Sizes};
use crate::pass::{
    attend_steps, attention_steps, decodable, feed_forward_steps, gather_step, keys_step,
    law_caches_do_not_plan, layer_steps, layers_steps, logits_steps, merge_step, mix_step,
    own_heads_of, pass_steps, project_steps, queries_of, scores_of, stretch_of, values_step,
    weight_of, window_of, Step,
};
use crate::reads::{inputs_of, is_cache};
use crate::request::{all_alike, decodes_from, law_decoding_within_tokens, offset, Request};
use crate::shape::udim;
use crate::writes::{base_of, law_pass_writes_own, output_of, writes_own};
use vstd::prelude::*;

verus! {

/// A part of memory that a pass reads or writes.
pub enum Cell {
    /// All elements of a tensor that is no cache.
    Tensor(Name),
    /// An element of a buffer.
    Scratch(Buffer, int),
    /// What a cache holds of a token, given by its place.
    Slot(Name, int),
}

/// The contents of memory.
pub type Memory<V> = spec_fn(Cell) -> V;

/// What the kernels compute: the new contents of a cell that a call writes,
/// from the contents of the cells that it reads.
pub type Kernels<V> = spec_fn(Step, spec_fn(Cell) -> Option<V>, Cell) -> V;

/// The view takes the cell in, wholly or in part.
pub open spec fn covers(view: Expr, cell: Cell) -> bool
    decreases view,
{
    match view {
        Expr::Whole(name) => if is_cache(name) {
            cell matches Cell::Slot(n, _) && n == name
        } else {
            cell == Cell::Tensor(name)
        },
        Expr::Over(buffer, dims) => cell matches Cell::Scratch(b, i) && b == buffer && 0 <= i
            < volume(dims.shape()),
        Expr::Part { of, .. } => covers(*of, cell),
        Expr::Reshape(of, _) => covers(*of, cell),
        Expr::Transpose(of, _) => covers(*of, cell),
        Expr::Slice(of, ranges) => covers(*of, cell) && match (*of, ranges, cell) {
            (
                Expr::Whole(_),
                Ranges::Three(_, Range::Span { from, take }, _),
                Cell::Slot(_, t),
            ) => from <= t < from + take,
            _ => true,
        },
    }
}

/// The view takes in the whole of every cell that it covers.
pub open spec fn fills(view: Expr) -> bool
    decreases view,
{
    match view {
        Expr::Whole(_) => true,
        Expr::Over(_, _) => true,
        Expr::Part { .. } => false,
        Expr::Reshape(of, _) => fills(*of),
        Expr::Transpose(of, _) => fills(*of),
        Expr::Slice(of, ranges) => match (*of, ranges) {
            (Expr::Whole(name), Ranges::Three(Range::All, _, Range::All)) => is_cache(name),
            _ => false,
        },
    }
}

/// The call writes the cell.
pub open spec fn writes(step: Step, cell: Cell) -> bool {
    covers(output_of(step), cell)
}

/// The call depends on what the cell holds: it reads it, or it leaves a part of
/// it as it was.
pub open spec fn reads(step: Step, cell: Cell) -> bool {
    ||| exists|i: int|
        0 <= i < inputs_of(step).len() && covers(#[trigger] inputs_of(step)[i], cell)
    ||| !fills(output_of(step)) && covers(output_of(step), cell)
}

/// What a call sees of memory.
pub open spec fn seen<V>(m: Memory<V>, step: Step) -> spec_fn(Cell) -> Option<V> {
    |c: Cell|
        if reads(step, c) {
            Some(m(c))
        } else {
            None
        }
}

/// Memory after a call.
pub open spec fn after_step<V>(kernels: Kernels<V>, m: Memory<V>, step: Step) -> Memory<V> {
    |c: Cell|
        if writes(step, c) {
            kernels(step, seen(m, step), c)
        } else {
            m(c)
        }
}

/// Memory after a list of calls.
pub open spec fn after_steps<V>(kernels: Kernels<V>, m: Memory<V>, steps: Seq<Step>) -> Memory<V>
    decreases steps.len(),
{
    if steps.len() == 0 {
        m
    } else {
        after_step(kernels, after_steps(kernels, m, steps.drop_last()), steps.last())
    }
}

/// A call before `k` writes the cell.
pub open spec fn written_before(steps: Seq<Step>, k: int, cell: Cell) -> bool {
    exists|j: int| 0 <= j < k && writes(#[trigger] steps[j], cell)
}

/// A call of the list writes the cell.
pub open spec fn written(steps: Seq<Step>, cell: Cell) -> bool {
    written_before(steps, steps.len() as int, cell)
}

/// What a pass over a batch is given: the weights, and what the caches hold of
/// the earlier tokens.
pub open spec fn given<C>(s: Seq<Request<C>>, cell: Cell) -> bool {
    match cell {
        Cell::Tensor(name) => match name {
            Name::X0 | Name::X1 | Name::X2 | Name::Qkv | Name::GateUp | Name::Logits => false,
            _ => true,
        },
        Cell::Scratch(_, _) => false,
        Cell::Slot(name, t) => match name {
            Name::KeyCache { request, .. } | Name::ValueCache { request, .. } => request < s.len()
                && t < s[request as int].pos,
            _ => false,
        },
    }
}

/// The slot of a token up to the last new one, in a cache of the batch for one
/// of the layers.
pub open spec fn up_to_new<C>(model: ModelConfig, s: Seq<Request<C>>, cell: Cell) -> bool {
    match cell {
        Cell::Slot(name, t) => match name {
            Name::KeyCache { request, layer } | Name::ValueCache { request, layer } => request
                < s.len() && layer < model.num_hidden_layers && t < s[request as int].pos
                + s[request as int].tokens(),
            _ => false,
        },
        _ => false,
    }
}

/// Every cell that a call of the list depends on is `known` or written by an
/// earlier call.
spec fn supplied(known: spec_fn(Cell) -> bool, steps: Seq<Step>) -> bool {
    forall|k: int, c: Cell|
        0 <= k < steps.len() && #[trigger] reads(steps[k], c) ==> known(c) || written_before(
            steps,
            k,
            c,
        )
}

proof fn lemma_written_joins(a: Seq<Step>, b: Seq<Step>)
    ensures
        forall|c: Cell, k: int|
            #![trigger written_before(a + b, k, c)]
            0 <= k <= a.len() && written_before(a, k, c) ==> written_before(a + b, k, c),
        forall|c: Cell, k: int|
            #![trigger written_before(a + b, k, c)]
            a.len() <= k <= a.len() + b.len() && (written(a, c) || written_before(
                b,
                k - a.len(),
                c,
            )) ==> written_before(a + b, k, c),
        forall|c: Cell| written(a, c) || written(b, c) ==> #[trigger] written(a + b, c),
{
    let ab = a + b;
    assert forall|c: Cell, k: int|
        #![trigger written_before(ab, k, c)]
        0 <= k <= a.len() && written_before(a, k, c) implies written_before(ab, k, c) by {
        let j = choose|j: int| 0 <= j < k && writes(#[trigger] a[j], c);
        assert(ab[j] == a[j]);
    }
    assert forall|c: Cell, k: int|
        #![trigger written_before(ab, k, c)]
        a.len() <= k <= ab.len() && (written(a, c) || written_before(
            b,
            k - a.len(),
            c,
        )) implies written_before(ab, k, c) by {
        if written(a, c) {
            let j = choose|j: int| 0 <= j < a.len() && writes(#[trigger] a[j], c);
            assert(ab[j] == a[j]);
        } else {
            let j = choose|j: int| 0 <= j < k - a.len() && writes(#[trigger] b[j], c);
            assert(ab[j + a.len()] == b[j]);
        }
    }
}

proof fn lemma_supplied_joins(
    known: spec_fn(Cell) -> bool,
    later: spec_fn(Cell) -> bool,
    a: Seq<Step>,
    b: Seq<Step>,
)
    requires
        supplied(known, a),
        supplied(later, b),
        forall|c: Cell| #[trigger] later(c) ==> known(c) || written(a, c),
    ensures
        supplied(known, a + b),
{
    let ab = a + b;
    lemma_written_joins(a, b);
    assert forall|k: int, c: Cell|
        0 <= k < ab.len() && #[trigger] reads(ab[k], c) implies known(c) || written_before(
        ab,
        k,
        c,
    ) by {
        if k < a.len() {
            assert(ab[k] == a[k]);
            assert(reads(a[k], c));
        } else {
            assert(ab[k] == b[k - a.len()]);
            assert(reads(b[k - a.len()], c));
            assert(later(c) || written_before(b, k - a.len(), c));
        }
    }
}

/// Two runs of a list of calls that start with the same `known` cells end with
/// the same known and written cells.
proof fn lemma_runs_agree<V>(
    kernels: Kernels<V>,
    known: spec_fn(Cell) -> bool,
    steps: Seq<Step>,
    m: Memory<V>,
    n: Memory<V>,
)
    requires
        supplied(known, steps),
        forall|c: Cell| #[trigger] known(c) ==> m(c) == n(c),
    ensures
        forall|c: Cell|
            known(c) || written(steps, c) ==> #[trigger] after_steps(kernels, m, steps)(c)
                == after_steps(kernels, n, steps)(c),
    decreases steps.len(),
{
    if steps.len() > 0 {
        let init = steps.drop_last();
        let last = steps.last();
        let e = steps.len() - 1;
        assert forall|c: Cell, k: int|
            #![trigger written_before(init, k, c)]
            0 <= k <= e implies written_before(init, k, c) == written_before(steps, k, c) by {
            if written_before(steps, k, c) {
                let j = choose|j: int| 0 <= j < k && writes(#[trigger] steps[j], c);
                assert(init[j] == steps[j]);
            }
            if written_before(init, k, c) {
                let j = choose|j: int| 0 <= j < k && writes(#[trigger] init[j], c);
                assert(init[j] == steps[j]);
            }
        }
        assert(supplied(known, init)) by {
            assert forall|k: int, c: Cell|
                0 <= k < init.len() && #[trigger] reads(init[k], c) implies known(c)
                || written_before(init, k, c) by {
                assert(init[k] == steps[k]);
                assert(reads(steps[k], c));
                assert(known(c) || written_before(steps, k, c));
            }
        }
        lemma_runs_agree(kernels, known, init, m, n);
        let m1 = after_steps(kernels, m, init);
        let n1 = after_steps(kernels, n, init);
        assert(seen(m1, last) =~= seen(n1, last)) by {
            assert forall|c: Cell| reads(last, c) implies m1(c) == n1(c) by {
                assert(reads(steps[e], c));
                assert(known(c) || written_before(steps, e, c));
                assert(written_before(init, e, c) == written_before(steps, e, c));
            }
        }
        assert forall|c: Cell| known(c) || written(steps, c) implies #[trigger] after_steps(
            kernels,
            m,
            steps,
        )(c) == after_steps(kernels, n, steps)(c) by {
            if !writes(last, c) {
                if written(steps, c) {
                    let j = choose|j: int| 0 <= j < steps.len() && writes(#[trigger] steps[j], c);
                    assert(init[j] == steps[j]);
                    assert(written(init, c));
                }
                assert(m1(c) == n1(c));
            }
        }
    }
}

/// A cell that no call writes keeps its contents.
proof fn lemma_unwritten_stays<V>(
    kernels: Kernels<V>,
    steps: Seq<Step>,
    m: Memory<V>,
    cell: Cell,
)
    requires
        !written(steps, cell),
    ensures
        after_steps(kernels, m, steps)(cell) == m(cell),
    decreases steps.len(),
{
    if steps.len() > 0 {
        let init = steps.drop_last();
        assert(!writes(steps[steps.len() - 1], cell));
        if written(init, cell) {
            let j = choose|j: int| 0 <= j < init.len() && writes(#[trigger] init[j], cell);
            assert(writes(steps[j], cell));
        }
        lemma_unwritten_stays(kernels, init, m, cell);
    }
}

/// What a layer can read at its beginning (`stage` 0), after its projection (1)
/// and after its attention (2).
spec fn known_at<C>(s: Seq<Request<C>>, stage: int) -> spec_fn(Cell) -> bool {
    |c: Cell|
        given(s, c) || c == Cell::Tensor(Name::X0) || stage >= 1 && c == Cell::Tensor(Name::X1)
            || stage == 1 && c == Cell::Tensor(Name::Qkv)
}

proof fn lemma_project_supplied<C>(z: Sizes, s: Seq<Request<C>>, nt: udim, layer: usize)
    ensures
        supplied(known_at(s, 0), project_steps(z, nt, layer)),
        written(project_steps(z, nt, layer), Cell::Tensor(Name::X1)),
        written(project_steps(z, nt, layer), Cell::Tensor(Name::Qkv)),
{
    reveal_with_fuel(covers, 4);
    let steps = project_steps(z, nt, layer);
    let x1 = Cell::Tensor(Name::X1);
    let qkv = Cell::Tensor(Name::Qkv);
    assert(writes(steps[0], x1));
    assert(writes(steps[1], qkv));
    assert forall|k: int, c: Cell|
        0 <= k < steps.len() && #[trigger] reads(steps[k], c) implies known_at(s, 0)(c)
        || written_before(steps, k, c) by {
        if k == 0 {
            assert(inputs_of(steps[0]) =~= seq![
                Expr::Whole(Name::X0),
                Expr::Whole(Name::InputLayernorm(layer)),
            ]);
        } else if k == 1 {
            assert(inputs_of(steps[1]) =~= seq![
                Expr::Whole(Name::X1),
                weight_of(Name::WQkv(layer)),
            ]);
        } else {
            assert(inputs_of(steps[k]).len() == 1);
            assert(c == qkv);
        }
    }
}

proof fn lemma_feed_forward_supplied<C>(z: Sizes, s: Seq<Request<C>>, layer: usize)
    ensures
        supplied(known_at(s, 2), feed_forward_steps(z, layer)),
{
    reveal_with_fuel(covers, 4);
    let steps = feed_forward_steps(z, layer);
    let gate_up = Cell::Tensor(Name::GateUp);
    assert(writes(steps[2], gate_up));
    assert forall|k: int, c: Cell|
        0 <= k < steps.len() && #[trigger] reads(steps[k], c) implies known_at(s, 2)(c)
        || written_before(steps, k, c) by {
        if k == 0 {
            assert(inputs_of(steps[0]).len() == 3);
        } else if k == 1 {
            assert(inputs_of(steps[1]).len() == 2);
        } else if k == 2 {
            assert(inputs_of(steps[2]).len() == 2);
        } else if k == 3 {
            assert(inputs_of(steps[3]).len() == 2);
            assert(c == gate_up);
        } else {
            assert(inputs_of(steps[4]).len() == 3);
        }
    }
}

proof fn lemma_attend_supplied<C>(z: Sizes, s: Seq<Request<C>>, nt: udim, layer: usize, r: int)
    requires
        0 <= r < s.len() <= usize::MAX,
        s[r].measurable(),
    ensures
        supplied(known_at(s, 1), attend_steps(z, nt, layer, window_of(s, r))),
        forall|t: int|
            s[r].pos <= t < s[r].pos + s[r].tokens() ==> #[trigger] written(
                attend_steps(z, nt, layer, window_of(s, r)),
                Cell::Slot(Name::KeyCache { request: r as usize, layer }, t),
            ),
        forall|t: int|
            s[r].pos <= t < s[r].pos + s[r].tokens() ==> #[trigger] written(
                attend_steps(z, nt, layer, window_of(s, r)),
                Cell::Slot(Name::ValueCache { request: r as usize, layer }, t),
            ),
{
    reveal_with_fuel(covers, 6);
    reveal_with_fuel(fills, 4);
    let w = window_of(s, r);
    let steps = attend_steps(z, nt, layer, w);
    let key = Name::KeyCache { request: w.request, layer };
    let value = Name::ValueCache { request: w.request, layer };
    let qkv = Cell::Tensor(Name::Qkv);
    assert(steps[1] == keys_step(z, nt, layer, w));
    assert(steps[2] == values_step(z, nt, layer, w));
    assert(steps[5] == mix_step(z, layer, w));
    assert(steps[6] == merge_step(z, w));
    assert forall|t: int| w.pos <= t < w.att_len implies #[trigger] writes(
        steps[1],
        Cell::Slot(key, t),
    ) by {}
    assert forall|t: int| w.pos <= t < w.att_len implies #[trigger] writes(
        steps[2],
        Cell::Slot(value, t),
    ) by {}
    assert forall|t: int| s[r].pos <= t < s[r].pos + s[r].tokens() implies #[trigger] written(
        steps,
        Cell::Slot(key, t),
    ) by {
        assert(writes(steps[1], Cell::Slot(key, t)));
    }
    assert forall|t: int| s[r].pos <= t < s[r].pos + s[r].tokens() implies #[trigger] written(
        steps,
        Cell::Slot(value, t),
    ) by {
        assert(writes(steps[2], Cell::Slot(value, t)));
    }
    assert(covers(own_heads_of(z, nt, w, 0), qkv));
    assert forall|k: int, c: Cell|
        0 <= k < steps.len() && #[trigger] reads(steps[k], c) implies known_at(s, 1)(c)
        || written_before(steps, k, c) by {
        if k <= 2 {
            assert(inputs_of(steps[k]).len() == 1);
            assert(fills(output_of(steps[k])));
            assert(c == qkv);
        } else if k == 3 {
            assert(inputs_of(steps[3]).len() == 2);
            assert(fills(output_of(steps[3])));
            if covers(queries_of(z, w), c) {
                assert(writes(steps[0], c));
            } else {
                assert(covers(stretch_of(Expr::Whole(key), 0, w.att_len), c));
                let t = c->Slot_1;
                assert(c == Cell::Slot(key, t));
                if t >= w.pos {
                    assert(writes(steps[1], c));
                }
            }
        } else if k == 4 {
            assert(inputs_of(steps[4]).len() == 1);
            assert(covers(scores_of(z, w), c));
            assert(writes(steps[3], c));
        } else if k == 5 {
            assert(inputs_of(steps[5]).len() == 2);
            assert(fills(output_of(steps[5])));
            if covers(scores_of(z, w), c) {
                assert(writes(steps[3], c));
            } else {
                assert(covers(stretch_of(Expr::Whole(value), 0, w.att_len), c));
                let t = c->Slot_1;
                assert(c == Cell::Slot(value, t));
                if t >= w.pos {
                    assert(writes(steps[2], c));
                }
            }
        } else {
            assert(inputs_of(steps[6]).len() == 1);
            assert(fills(output_of(steps[6])));
            assert(c == Cell::Tensor(Name::X2));
            assert(writes(steps[5], c));
        }
    }
}

/// The places of the new tokens in the caches of a request.
spec fn new_slot<C>(s: Seq<Request<C>>, layer: usize, r: int, cell: Cell) -> bool {
    cell matches Cell::Slot(name, t) && s[r].pos <= t < s[r].pos + s[r].tokens() && (name
        == Name::KeyCache { request: r as usize, layer } || name == Name::ValueCache {
        request: r as usize,
        layer,
    })
}

proof fn lemma_attention_supplied<C>(z: Sizes, s: Seq<Request<C>>, layer: usize, n: int)
    requires
        0 <= n <= s.len() <= usize::MAX,
        forall|r: int| 0 <= r < s.len() ==> (#[trigger] s[r]).measurable(),
    ensures
        supplied(known_at(s, 1), attention_steps(z, s, layer, n)),
        forall|r: int, c: Cell|
            0 <= r < n && #[trigger] new_slot(s, layer, r, c) ==> written(
                attention_steps(z, s, layer, n),
                c,
            ),
    decreases n,
{
    if n > 0 {
        let nt = offset(s, s.len() as int) as udim;
        let before = attention_steps(z, s, layer, n - 1);
        let own = attend_steps(z, nt, layer, window_of(s, n - 1));
        assert(s[n - 1].measurable());
        lemma_attention_supplied(z, s, layer, n - 1);
        lemma_attend_supplied(z, s, nt, layer, n - 1);
        lemma_supplied_joins(known_at(s, 1), known_at(s, 1), before, own);
        lemma_written_joins(before, own);
        assert forall|r: int, c: Cell| 0 <= r < n && #[trigger] new_slot(
            s,
            layer,
            r,
            c,
        ) implies written(before + own, c) by {
            if r == n - 1 {
                assert(c == Cell::Slot(c->Slot_0, c->Slot_1));
                assert(written(own, c));
            }
        }
    }
}

proof fn lemma_layer_supplied<C>(z: Sizes, s: Seq<Request<C>>, layer: usize)
    requires
        s.len() <= usize::MAX,
        forall|r: int| 0 <= r < s.len() ==> (#[trigger] s[r]).measurable(),
    ensures
        supplied(known_at(s, 0), layer_steps(z, s, layer)),
        forall|r: int, c: Cell|
            0 <= r < s.len() && #[trigger] new_slot(s, layer, r, c) ==> written(
                layer_steps(z, s, layer),
                c,
            ),
{
    let nt = offset(s, s.len() as int) as udim;
    let project = project_steps(z, nt, layer);
    let attention = attention_steps(z, s, layer, s.len() as int);
    let feed = feed_forward_steps(z, layer);
    lemma_project_supplied(z, s, nt, layer);
    lemma_attention_supplied(z, s, layer, s.len() as int);
    lemma_feed_forward_supplied(z, s, layer);
    lemma_supplied_joins(known_at(s, 0), known_at(s, 1), project, attention);
    lemma_written_joins(project, attention);
    lemma_written_joins(project + attention, feed);
    assert(written(project + attention, Cell::Tensor(Name::X1)));
    lemma_supplied_joins(known_at(s, 0), known_at(s, 2), project + attention, feed);
    assert forall|r: int, c: Cell| 0 <= r < s.len() && #[trigger] new_slot(
        s,
        layer,
        r,
        c,
    ) implies written(layer_steps(z, s, layer), c) by {
        assert(written(project + attention, c));
        assert(written(project + attention + feed, c));
    }
}

proof fn lemma_layers_supplied<C>(z: Sizes, s: Seq<Request<C>>, n: int)
    requires
        n <= usize::MAX,
        s.len() <= usize::MAX,
        forall|r: int| 0 <= r < s.len() ==> (#[trigger] s[r]).measurable(),
    ensures
        supplied(known_at(s, 0), layers_steps(z, s, n)),
        forall|layer: usize, r: int, c: Cell|
            layer < n && 0 <= r < s.len() && #[trigger] new_slot(s, layer, r, c) ==> written(
                layers_steps(z, s, n),
                c,
            ),
    decreases n,
{
    if n > 0 {
        let last = (n - 1) as usize;
        let before = layers_steps(z, s, n - 1);
        let own = layer_steps(z, s, last);
        lemma_layers_supplied(z, s, n - 1);
        lemma_layer_supplied(z, s, last);
        lemma_supplied_joins(known_at(s, 0), known_at(s, 0), before, own);
        lemma_written_joins(before, own);
        assert forall|layer: usize, r: int, c: Cell|
            layer < n && 0 <= r < s.len() && #[trigger] new_slot(
                s,
                layer,
                r,
                c,
            ) implies written(before + own, c) by {
            if layer == last {
                assert(written(own, c));
            } else {
                assert(written(before, c));
            }
        }
    }
}

proof fn lemma_logits_supplied<C>(s: Seq<Request<C>>, batch: udim)
    ensures
        supplied(known_at(s, 0), logits_steps(batch)),
        batch > 0 ==> written(logits_steps(batch), Cell::Tensor(Name::Logits)),
{
    if batch > 0 {
        reveal_with_fuel(covers, 3);
        let steps = logits_steps(batch);
        assert(writes(steps[1], Cell::Tensor(Name::Logits)));
        assert forall|k: int, c: Cell|
            0 <= k < steps.len() && #[trigger] reads(steps[k], c) implies known_at(s, 0)(c)
            || written_before(steps, k, c) by {
            assert(inputs_of(steps[k]).len() == 2);
        }
    }
}

proof fn lemma_pass_supplied<C>(model: ModelConfig, s: Seq<Request<C>>)
    requires
        decodable(model, s),
        s.len() <= usize::MAX,
    ensures
        supplied(|c: Cell| given(s, c), pass_steps(model, s)),
        decodes_from(s, 0) > 0 ==> written(pass_steps(model, s), Cell::Tensor(Name::Logits)),
        forall|layer: usize, r: int, c: Cell|
            layer < model.num_hidden_layers && 0 <= r < s.len() && #[trigger] new_slot(
                s,
                layer,
                r,
                c,
            ) ==> written(pass_steps(model, s), c),
{
    reveal_with_fuel(covers, 2);
    let z = model.lengths();
    let n = model.num_hidden_layers as int;
    let batch = decodes_from(s, 0) as udim;
    let start = |c: Cell| given(s, c);
    let first = seq![gather_step()];
    let middle = layers_steps(z, s, n);
    let last = logits_steps(batch);
    law_decoding_within_tokens(s);
    assert(writes(first[0], Cell::Tensor(Name::X0)));
    assert(written(first, Cell::Tensor(Name::X0)));
    assert(supplied(start, first)) by {
        assert forall|k: int, c: Cell| 0 <= k < first.len() && #[trigger] reads(
            first[k],
            c,
        ) implies start(c) || written_before(first, k, c) by {
            assert(inputs_of(first[0]).len() == 1);
        }
    }
    lemma_layers_supplied(z, s, n);
    lemma_logits_supplied(s, batch);
    lemma_supplied_joins(start, known_at(s, 0), first, middle);
    lemma_written_joins(first, middle);
    lemma_written_joins(first + middle, last);
    assert(written(first + middle, Cell::Tensor(Name::X0)));
    lemma_supplied_joins(start, known_at(s, 0), first + middle, last);
    assert(pass_steps(model, s) == first + middle + last);
    assert forall|layer: usize, r: int, c: Cell|
        layer < n && 0 <= r < s.len() && #[trigger] new_slot(s, layer, r, c) implies written(
        pass_steps(model, s),
        c,
    ) by {
        assert(written(middle, c));
        assert(written(first + middle, c));
        assert(written(first + middle + last, c));
    }
}

proof fn lemma_cover_base(view: Expr, name: Name, t: int)
    requires
        covers(view, Cell::Slot(name, t)),
    ensures
        base_of(view) == Some(name),
        is_cache(name),
    decreases view,
{
    match view {
        Expr::Whole(_) => {},
        Expr::Over(_, _) => {},
        Expr::Part { of, .. } => lemma_cover_base(*of, name, t),
        Expr::Reshape(of, _) => lemma_cover_base(*of, name, t),
        Expr::Transpose(of, _) => lemma_cover_base(*of, name, t),
        Expr::Slice(of, _) => lemma_cover_base(*of, name, t),
    }
}

/// A pass depends on nothing but what it is given: whatever a call reads is a
/// weight, a cache slot of an earlier token, or written by an earlier call of
/// the pass.
pub proof fn law_pass_reads_given<C>(model: ModelConfig, s: Seq<Request<C>>, k: int, cell: Cell)
    requires
        decodable(model, s),
        s.len() <= usize::MAX,
        0 <= k < pass_steps(model, s).len(),
        reads(pass_steps(model, s)[k], cell),
    ensures
        given(s, cell) || written_before(pass_steps(model, s), k, cell),
{
    lemma_pass_supplied(model, s);
    assert((|c: Cell| given(s, c))(cell) || written_before(pass_steps(model, s), k, cell));
}

/// A pass writes to a cache exactly at the places of the new tokens of its
/// request, in every layer.
pub proof fn law_pass_writes_new_slots<C>(
    model: ModelConfig,
    s: Seq<Request<C>>,
    name: Name,
    t: int,
)
    requires
        decodable(model, s),
        s.len() <= usize::MAX,
    ensures
        written(pass_steps(model, s), Cell::Slot(name, t)) <==> match name {
            Name::KeyCache { request, layer } | Name::ValueCache { request, layer } => request
                < s.len() && layer < model.num_hidden_layers && s[request as int].pos <= t
                < s[request as int].pos + s[request as int].tokens(),
            _ => false,
        },
{
    let steps = pass_steps(model, s);
    let cell = Cell::Slot(name, t);
    lemma_pass_supplied(model, s);
    match name {
        Name::KeyCache { request, layer } | Name::ValueCache { request, layer } => {
            if request < s.len() && layer < model.num_hidden_layers && s[request as int].pos <= t
                < s[request as int].pos + s[request as int].tokens() {
                assert(new_slot(s, layer, request as int, cell));
            }
        },
        _ => {},
    }
    if written(steps, cell) {
        reveal_with_fuel(covers, 3);
        let j = choose|j: int| 0 <= j < steps.len() && writes(#[trigger] steps[j], cell);
        lemma_cover_base(output_of(steps[j]), name, t);
        law_pass_writes_own(model, s, j);
        assert(writes_own(model.num_hidden_layers as nat, s, steps[j]));
        match name {
            Name::KeyCache { request, layer } | Name::ValueCache { request, layer } => {
                assert(s[request as int].measurable());
            },
            _ => {},
        }
    }
}

/// Whatever the kernels compute, passes over two batches that bring the same
/// tokens at the same places, with the same weights and with caches that agree
/// on the earlier tokens, have the same result and leave caches that agree on
/// all tokens up to the last new one: what a cache holds at or behind the
/// places of the new tokens has no influence, nor has what the other tensors
/// and the buffers hold before the pass. Without a decoding request the result
/// has no rows.
pub proof fn law_stale_memory_has_no_influence<C, V>(
    kernels: Kernels<V>,
    model: ModelConfig,
    a: Seq<Request<C>>,
    b: Seq<Request<C>>,
    m: Memory<V>,
    n: Memory<V>,
)
    requires
        decodable(model, a),
        decodable(model, b),
        a.len() <= usize::MAX,
        all_alike(a, b),
        forall|c: Cell| #[trigger] given(a, c) ==> m(c) == n(c),
    ensures
        decodes_from(a, 0) > 0 ==> after_steps(kernels, m, pass_steps(model, a))(
            Cell::Tensor(Name::Logits),
        ) == after_steps(kernels, n, pass_steps(model, b))(Cell::Tensor(Name::Logits)),
        forall|c: Cell|
            up_to_new(model, a, c) ==> #[trigger] after_steps(kernels, m, pass_steps(model, a))(c)
                == after_steps(kernels, n, pass_steps(model, b))(c),
{
    let steps = pass_steps(model, a);
    let start = |c: Cell| given(a, c);
    law_caches_do_not_plan(model, a, b);
    lemma_pass_supplied(model, a);
    lemma_runs_agree(kernels, start, steps, m, n);
    assert forall|c: Cell| up_to_new(model, a, c) implies #[trigger] after_steps(kernels, m, steps)(
        c,
    ) == after_steps(kernels, n, steps)(c) by {
        let name = c->Slot_0;
        let t = c->Slot_1;
        law_pass_writes_new_slots(model, a, name, t);
        assert(start(c) || written(steps, c));
    }
}

/// Whatever the kernels compute, a pass leaves the weights as they are.
pub proof fn law_weights_stay<C, V>(
    kernels: Kernels<V>,
    model: ModelConfig,
    s: Seq<Request<C>>,
    m: Memory<V>,
    name: Name,
)
    requires
        decodable(model, s),
        s.len() <= usize::MAX,
        given(s, Cell::Tensor(name)),
    ensures
        after_steps(kernels, m, pass_steps(model, s))(Cell::Tensor(name)) == m(Cell::Tensor(name)),
{
    let steps = pass_steps(model, s);
    let cell = Cell::Tensor(name);
    if written(steps, cell) {
        let j = choose|j: int| 0 <= j < steps.len() && writes(#[trigger] steps[j], cell);
        law_pass_writes_own(model, s, j);
        lemma_cover_tensor(output_of(steps[j]), name);
    }
    lemma_unwritten_stays(kernels, steps, m, cell);
}

proof fn lemma_cover_tensor(view: Expr, name: Name)
    requires
        covers(view, Cell::Tensor(name)),
    ensures
        base_of(view) == Some(name),
        !is_cache(name),
    decreases view,
{
    match view {
        Expr::Whole(_) => {},
        Expr::Over(_, _) => {},
        Expr::Part { of, .. } => lemma_cover_tensor(*of, name),
        Expr::Reshape(of, _) => lemma_cover_tensor(*of, name),
        Expr::Transpose(of, _) => lemma_cover_tensor(*of, name),
        Expr::Slice(of, _) => lemma_cover_tensor(*of, name),
    }
}

/// Whatever the kernels compute, a pass that is run again over a batch that
/// brings the same tokens at the same places, on the weights and caches that
/// the first run left, has the same result and leaves every cache as the first
/// run left it. Without a decoding request the result has no rows.
pub proof fn law_repeated_pass_changes_nothing<C, V>(
    kernels: Kernels<V>,
    model: ModelConfig,
    s: Seq<Request<C>>,
    again: Seq<Request<C>>,
    m: Memory<V>,
    n: Memory<V>,
)
    requires
        decodable(model, s),
        decodable(model, again),
        s.len() <= usize::MAX,
        all_alike(s, again),
        forall|c: Cell|
            c is Slot || given(s, c) ==> #[trigger] n(c) == after_steps(
                kernels,
                m,
                pass_steps(model, s),
            )(c),
    ensures
        decodes_from(s, 0) > 0 ==> after_steps(kernels, n, pass_steps(model, again))(
            Cell::Tensor(Name::Logits),
        ) == after_steps(kernels, m, pass_steps(model, s))(Cell::Tensor(Name::Logits)),
        forall|c: Cell|
            c is Slot ==> #[trigger] after_steps(kernels, n, pass_steps(model, again))(c)
                == after_steps(kernels, m, pass_steps(model, s))(c),
{
    let steps = pass_steps(model, s);
    let start = |c: Cell| given(s, c);
    law_caches_do_not_plan(model, s, again);
    lemma_pass_supplied(model, s);
    assert forall|c: Cell| #[trigger] start(c) implies m(c) == n(c) by {
        match c {
            Cell::Tensor(name) => law_weights_stay(kernels, model, s, m, name),
            Cell::Scratch(_, _) => {},
            Cell::Slot(name, t) => {
                law_pass_writes_new_slots(model, s, name, t);
                lemma_unwritten_stays(kernels, steps, m, c);
            },
        }
    }
    lemma_runs_agree(kernels, start, steps, m, n);
    assert forall|c: Cell| c is Slot implies #[trigger] after_steps(kernels, n, steps)(c)
        == after_steps(kernels, m, steps)(c) by {
        if !written(steps, c) {
            lemma_unwritten_stays(kernels, steps, n, c);
        }
    }
}

} // verus!

//! What the kernel calls of a pass write to.
use crate::expr::{Expr, Name};
use crate::model::{ModelConfig, Sizes};
use crate::pass::{
    attend_steps, attention_steps, decodable, feed_forward_steps, first_rows_of, gather_step,
    heads_of, layer_steps, layers_steps, logits_steps, pass_steps, project_steps, queries_of,
    scores_by_query_of, scores_of, stretch_of, window_of, Step,
};
use crate::request::{offset, Request};
use crate::shape::udim;
use vstd::prelude::*;

verus! {

/// The view that a call writes to.
pub open spec fn output_of(step: Step) -> Expr {
    match step {
        Step::Gather { out, .. } => out,
        Step::RmsNorm { out, .. } => out,
        Step::RmsNormInplace { x, .. } => x,
        Step::MatMul { out, .. } => out,
        Step::RotaryEmbedding { x } => x,
        Step::Reform { to, .. } => to,
        Step::Softmax { x } => x,
        Step::Swiglu { gate, .. } => gate,
    }
}

/// The tensor that a view is taken of; `None` for a buffer.
pub open spec fn base_of(expr: Expr) -> Option<Name>
    decreases expr,
{
    match expr {
        Expr::Whole(name) => Some(name),
        Expr::Over(_, _) => None,
        Expr::Part { of, .. } => base_of(*of),
        Expr::Reshape(of, _) => base_of(*of),
        Expr::Transpose(of, _) => base_of(*of),
        Expr::Slice(of, _) => base_of(*of),
    }
}

/// The call writes to a tensor or buffer of the pass itself, or to the cache of
/// a request for one of the layers, and there only to the places of its new
/// tokens.
pub open spec fn writes_own<C>(layers: nat, s: Seq<Request<C>>, step: Step) -> bool {
    let out = output_of(step);
    match base_of(out) {
        None => true,
        Some(name) => match name {
            Name::X0 | Name::X1 | Name::X2 | Name::Qkv | Name::GateUp | Name::Logits => true,
            Name::KeyCache { request, layer } | Name::ValueCache { request, layer } => request
                < s.len() && layer < layers && out == stretch_of(
                Expr::Whole(name),
                s[request as int].pos,
                s[request as int].tokens() as udim,
            ),
            _ => false,
        },
    }
}

spec fn all_own<C>(layers: nat, s: Seq<Request<C>>, steps: Seq<Step>) -> bool {
    forall|k: int| 0 <= k < steps.len() ==> writes_own(layers, s, #[trigger] steps[k])
}

proof fn lemma_own_joins<C>(layers: nat, s: Seq<Request<C>>, a: Seq<Step>, b: Seq<Step>)
    requires
        all_own(layers, s, a),
        all_own(layers, s, b),
    ensures
        all_own(layers, s, a + b),
{
    let c = a + b;
    assert forall|k: int| 0 <= k < c.len() implies writes_own(layers, s, #[trigger] c[k]) by {
        if k < a.len() {
            assert(c[k] == a[k]);
        } else {
            assert(c[k] == b[k - a.len()]);
        }
    }
}

proof fn lemma_attend_own<C>(layers: nat, z: Sizes, s: Seq<Request<C>>, nt: udim, layer: usize, r: int)
    requires
        0 <= r < s.len() <= usize::MAX,
        layer < layers,
    ensures
        all_own(layers, s, attend_steps(z, nt, layer, window_of(s, r))),
{
    reveal_with_fuel(base_of, 4);
    let w = window_of(s, r);
    let steps = attend_steps(z, nt, layer, w);
    assert(output_of(steps[0]) == queries_of(z, w));
    assert(output_of(steps[3]) == scores_of(z, w));
    assert(output_of(steps[4]) == scores_by_query_of(z, w));
}

proof fn lemma_attention_own<C>(layers: nat, z: Sizes, s: Seq<Request<C>>, layer: usize, r: int)
    requires
        0 <= r <= s.len() <= usize::MAX,
        layer < layers,
    ensures
        all_own(layers, s, attention_steps(z, s, layer, r)),
    decreases r,
{
    if r > 0 {
        let nt = offset(s, s.len() as int) as udim;
        lemma_attention_own(layers, z, s, layer, r - 1);
        lemma_attend_own(layers, z, s, nt, layer, r - 1);
        lemma_own_joins(
            layers,
            s,
            attention_steps(z, s, layer, r - 1),
            attend_steps(z, nt, layer, window_of(s, r - 1)),
        );
    }
}

proof fn lemma_layer_own<C>(layers: nat, z: Sizes, s: Seq<Request<C>>, layer: usize)
    requires
        s.len() <= usize::MAX,
        layer < layers,
    ensures
        all_own(layers, s, layer_steps(z, s, layer)),
{
    reveal_with_fuel(base_of, 4);
    let nt = offset(s, s.len() as int) as udim;
    let project = project_steps(z, nt, layer);
    let attention = attention_steps(z, s, layer, s.len() as int);
    let feed = feed_forward_steps(z, layer);
    assert(base_of(heads_of(z, nt, 0)) == Some(Name::Qkv));
    assert(base_of(heads_of(z, nt, 1)) == Some(Name::Qkv));
    assert(all_own(layers, s, project));
    assert(all_own(layers, s, feed));
    lemma_attention_own(layers, z, s, layer, s.len() as int);
    lemma_own_joins(layers, s, project, attention);
    lemma_own_joins(layers, s, project + attention, feed);
}

proof fn lemma_layers_own<C>(layers: nat, z: Sizes, s: Seq<Request<C>>, n: int)
    requires
        s.len() <= usize::MAX,
        n <= layers <= usize::MAX,
    ensures
        all_own(layers, s, layers_steps(z, s, n)),
    decreases n,
{
    if n > 0 {
        lemma_layers_own(layers, z, s, n - 1);
        lemma_layer_own(layers, z, s, (n - 1) as usize);
        lemma_own_joins(layers, s, layers_steps(z, s, n - 1), layer_steps(z, s, (n - 1) as usize));
    }
}

/// A pass changes neither the weights nor what a cache holds of the earlier
/// tokens of its request: it writes to its own tensors and buffers, and to the
/// places of the new tokens in the caches.
pub proof fn law_pass_writes_own<C>(model: ModelConfig, s: Seq<Request<C>>, k: int)
    requires
        decodable(model, s),
        s.len() <= usize::MAX,
        0 <= k < pass_steps(model, s).len(),
    ensures
        writes_own(model.num_hidden_layers as nat, s, pass_steps(model, s)[k]),
{
    let layers = model.num_hidden_layers as nat;
    reveal_with_fuel(base_of, 2);
    let z = model.lengths();
    let batch = crate::request::decodes_from(s, 0) as udim;
    let first = seq![gather_step()];
    let middle = layers_steps(z, s, model.num_hidden_layers as int);
    assert(all_own(layers, s, first));
    assert(base_of(first_rows_of(batch)) == Some(Name::X0));
    assert(all_own(layers, s, logits_steps(batch)));
    lemma_layers_own(layers, z, s, model.num_hidden_layers as int);
    lemma_own_joins(layers, s, first, middle);
    lemma_own_joins(layers, s, first + middle, logits_steps(batch));
}

} // verus!

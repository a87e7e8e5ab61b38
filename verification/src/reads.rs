//! What the kernel calls of a pass read of the caches.
use crate::expr::{Dims, Expr, Name};
use crate::model::{ModelConfig, Sizes};
use crate::pass::{
    attend_steps, attention_steps, decodable, feed_forward_steps, first_rows_of, gather_step,
    heads_of, keys_step, layer_steps, layers_steps, logits_steps, own_heads_of, pass_steps,
    project_steps, queries_of, scores_by_query_of, stretch_of, values_step, weight_of, window_of,
    Step,
};
use crate::request::{decodes_from, offset, Request};
use crate::shape::udim;
use crate::writes::base_of;
use vstd::prelude::*;

verus! {

/// The views that a call reads, with those that it changes in place or adds to.
pub open spec fn inputs_of(step: Step) -> Seq<Expr> {
    match step {
        Step::Gather { table, .. } => seq![table],
        Step::RmsNorm { input, weight, .. } => seq![input, weight],
        Step::RmsNormInplace { x, weight } => seq![x, weight],
        Step::MatMul { out, accumulate, a, b, .. } => if accumulate {
            seq![a, b, out]
        } else {
            seq![a, b]
        },
        Step::RotaryEmbedding { x } => seq![x],
        Step::Reform { from, .. } => seq![from],
        Step::Softmax { x } => seq![x],
        Step::Swiglu { gate, up } => seq![gate, up],
    }
}

/// The name is that of a cache.
pub open spec fn is_cache(name: Name) -> bool {
    name is KeyCache || name is ValueCache
}

/// The view is the stretch of the cache `name` from its first token to token
/// `len`, as it is or with its inner axes exchanged.
pub open spec fn is_front(view: Expr, name: Name, len: udim) -> bool {
    let front = stretch_of(Expr::Whole(name), 0, len);
    view == front || view == Expr::Transpose(Box::new(front), Dims::Three(0, 2, 1))
}

/// `step` stands in the list before `k`.
pub open spec fn stands_before(steps: Seq<Step>, k: int, step: Step) -> bool {
    exists|j: int| 0 <= j < k && #[trigger] steps[j] == step
}

/// Where call `k` reads a cache through `view`, it is the cache of a request
/// for one of the layers, from its first token to the last new one, and the new
/// keys and values of that request and layer have been copied before.
pub open spec fn reads_front<C>(
    z: Sizes,
    layers: nat,
    s: Seq<Request<C>>,
    steps: Seq<Step>,
    k: int,
    view: Expr,
) -> bool {
    match base_of(view) {
        Some(name) => match name {
            Name::KeyCache { request, layer } | Name::ValueCache { request, layer } => {
                let w = window_of(s, request as int);
                let nt = offset(s, s.len() as int) as udim;
                &&& request < s.len()
                &&& layer < layers
                &&& is_front(view, name, w.att_len)
                &&& stands_before(steps, k, keys_step(z, nt, layer, w))
                &&& stands_before(steps, k, values_step(z, nt, layer, w))
            },
            _ => true,
        },
        None => true,
    }
}

spec fn all_front<C>(z: Sizes, layers: nat, s: Seq<Request<C>>, steps: Seq<Step>) -> bool {
    forall|k: int, i: int|
        0 <= k < steps.len() && 0 <= i < inputs_of(steps[k]).len() ==> reads_front(
            z,
            layers,
            s,
            steps,
            k,
            #[trigger] inputs_of(steps[k])[i],
        )
}

proof fn lemma_front_joins<C>(
    z: Sizes,
    layers: nat,
    s: Seq<Request<C>>,
    a: Seq<Step>,
    b: Seq<Step>,
)
    requires
        all_front(z, layers, s, a),
        all_front(z, layers, s, b),
    ensures
        all_front(z, layers, s, a + b),
{
    let c = a + b;
    assert forall|k: int, i: int|
        0 <= k < c.len() && 0 <= i < inputs_of(c[k]).len() implies reads_front(
        z,
        layers,
        s,
        c,
        k,
        #[trigger] inputs_of(c[k])[i],
    ) by {
        let view = inputs_of(c[k])[i];
        if k < a.len() {
            assert(c[k] == a[k]);
            assert(reads_front(z, layers, s, a, k, inputs_of(a[k])[i]));
            assert forall|step: Step| stands_before(a, k, step) implies stands_before(
                c,
                k,
                step,
            ) by {
                let j = choose|j: int| 0 <= j < k && #[trigger] a[j] == step;
                assert(c[j] == step);
            }
        } else {
            let h = k - a.len();
            assert(c[k] == b[h]);
            assert(reads_front(z, layers, s, b, h, inputs_of(b[h])[i]));
            assert forall|step: Step| stands_before(b, h, step) implies stands_before(
                c,
                k,
                step,
            ) by {
                let j = choose|j: int| 0 <= j < h && #[trigger] b[j] == step;
                assert(c[j + a.len()] == step);
            }
        }
    }
}

/// A list of calls none of which reads a cache.
spec fn no_cache(steps: Seq<Step>) -> bool {
    forall|k: int, i: int|
        0 <= k < steps.len() && 0 <= i < inputs_of(steps[k]).len() ==> match base_of(
            #[trigger] inputs_of(steps[k])[i],
        ) {
            Some(name) => !is_cache(name),
            None => true,
        }
}

proof fn lemma_attend_front<C>(
    z: Sizes,
    layers: nat,
    s: Seq<Request<C>>,
    layer: usize,
    r: int,
)
    requires
        0 <= r < s.len() <= usize::MAX,
        layer < layers,
    ensures
        all_front(
            z,
            layers,
            s,
            attend_steps(z, offset(s, s.len() as int) as udim, layer, window_of(s, r)),
        ),
{
    reveal_with_fuel(base_of, 6);
    let nt = offset(s, s.len() as int) as udim;
    let w = window_of(s, r);
    let steps = attend_steps(z, nt, layer, w);
    assert(steps[1] == keys_step(z, nt, layer, w));
    assert(steps[2] == values_step(z, nt, layer, w));
    assert(base_of(own_heads_of(z, nt, w, 0)) == Some(Name::Qkv));
    assert(base_of(own_heads_of(z, nt, w, 1)) == Some(Name::Qkv));
    assert(base_of(own_heads_of(z, nt, w, 2)) == Some(Name::Qkv));
    assert(base_of(queries_of(z, w)) is None);
    assert(base_of(scores_by_query_of(z, w)) is None);
    assert(stands_before(steps, 3, keys_step(z, nt, layer, w)));
    assert(stands_before(steps, 3, values_step(z, nt, layer, w)));
    assert(stands_before(steps, 5, keys_step(z, nt, layer, w)));
    assert(stands_before(steps, 5, values_step(z, nt, layer, w)));
}

proof fn lemma_attention_front<C>(
    z: Sizes,
    layers: nat,
    s: Seq<Request<C>>,
    layer: usize,
    r: int,
)
    requires
        0 <= r <= s.len() <= usize::MAX,
        layer < layers,
    ensures
        all_front(z, layers, s, attention_steps(z, s, layer, r)),
    decreases r,
{
    if r > 0 {
        let nt = offset(s, s.len() as int) as udim;
        lemma_attention_front(z, layers, s, layer, r - 1);
        lemma_attend_front(z, layers, s, layer, r - 1);
        lemma_front_joins(
            z,
            layers,
            s,
            attention_steps(z, s, layer, r - 1),
            attend_steps(z, nt, layer, window_of(s, r - 1)),
        );
    }
}

proof fn lemma_layer_front<C>(z: Sizes, layers: nat, s: Seq<Request<C>>, layer: usize)
    requires
        s.len() <= usize::MAX,
        layer < layers,
    ensures
        all_front(z, layers, s, layer_steps(z, s, layer)),
{
    reveal_with_fuel(base_of, 4);
    let nt = offset(s, s.len() as int) as udim;
    let project = project_steps(z, nt, layer);
    let attention = attention_steps(z, s, layer, s.len() as int);
    let feed = feed_forward_steps(z, layer);
    assert(base_of(heads_of(z, nt, 0)) == Some(Name::Qkv));
    assert(base_of(heads_of(z, nt, 1)) == Some(Name::Qkv));
    assert(base_of(weight_of(Name::WQkv(layer))) == Some(Name::WQkv(layer)));
    assert(base_of(weight_of(Name::SelfAttnOProj(layer))) == Some(Name::SelfAttnOProj(layer)));
    assert(base_of(weight_of(Name::MlpGateUp(layer))) == Some(Name::MlpGateUp(layer)));
    assert(base_of(weight_of(Name::MlpDown(layer))) == Some(Name::MlpDown(layer)));
    assert(no_cache(project));
    assert(no_cache(feed));
    assert(all_front(z, layers, s, project));
    assert(all_front(z, layers, s, feed));
    lemma_attention_front(z, layers, s, layer, s.len() as int);
    lemma_front_joins(z, layers, s, project, attention);
    lemma_front_joins(z, layers, s, project + attention, feed);
}

proof fn lemma_layers_front<C>(z: Sizes, layers: nat, s: Seq<Request<C>>, n: int)
    requires
        s.len() <= usize::MAX,
        n <= layers <= usize::MAX,
    ensures
        all_front(z, layers, s, layers_steps(z, s, n)),
    decreases n,
{
    if n > 0 {
        let layer = (n - 1) as usize;
        lemma_layers_front(z, layers, s, n - 1);
        lemma_layer_front(z, layers, s, layer);
        lemma_front_joins(z, layers, s, layers_steps(z, s, n - 1), layer_steps(z, s, layer));
    }
}

/// Every read of a cache in a pass is of the stretch from the first token to
/// the last new one of that request and layer, and comes after the new keys and
/// values of that request and layer have been copied there.
pub proof fn law_pass_reads_front<C>(model: ModelConfig, s: Seq<Request<C>>, k: int, i: int)
    requires
        decodable(model, s),
        s.len() <= usize::MAX,
        0 <= k < pass_steps(model, s).len(),
        0 <= i < inputs_of(pass_steps(model, s)[k]).len(),
    ensures
        reads_front(
            model.lengths(),
            model.num_hidden_layers as nat,
            s,
            pass_steps(model, s),
            k,
            inputs_of(pass_steps(model, s)[k])[i],
        ),
{
    reveal_with_fuel(base_of, 2);
    let z = model.lengths();
    let n = model.num_hidden_layers as nat;
    let batch = decodes_from(s, 0) as udim;
    let first = seq![gather_step()];
    let middle = layers_steps(z, s, n as int);
    let last = logits_steps(batch);
    assert(base_of(first_rows_of(batch)) == Some(Name::X0));
    assert(base_of(weight_of(Name::LmHead)) == Some(Name::LmHead));
    assert(no_cache(first));
    assert(no_cache(last));
    assert(all_front(z, n, s, first));
    assert(all_front(z, n, s, last));
    lemma_layers_front(z, n, s, n as int);
    lemma_front_joins(z, n, s, first, middle);
    lemma_front_joins(z, n, s, first + middle, last);
}

} // verus!

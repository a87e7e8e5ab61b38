//! Which call of a pass stands where, and what it takes.
use crate::expr::{Buffer, Dims, Expr, Name, Range, Ranges};
use crate::model::{ModelConfig, Sizes};
use crate::pass::{
    attend_steps, attention_steps, decodable, feed_forward_steps, layer_steps, layers_steps,
    lemma_attention_count, lemma_layers_count, own_heads_of, pass_steps, project_steps,
    window_of, Scale, Step, Window,
};
use crate::reads::inputs_of;
use crate::request::{
    decodes_from, law_decoding_within_tokens, lemma_offset_monotone, lemma_some_decode, offset,
    Request,
};
use crate::shape::udim;
use crate::writes::{base_of, output_of};
use vstd::prelude::*;

verus! {

proof fn lemma_attention_call<C>(z: Sizes, s: Seq<Request<C>>, layer: usize, n: int, r: int, i: int)
    requires
        0 <= r < n,
        0 <= i < 7,
    ensures
        attention_steps(z, s, layer, n).len() == 7 * n,
        attention_steps(z, s, layer, n)[7 * r + i] == attend_steps(
            z,
            offset(s, s.len() as int) as udim,
            layer,
            window_of(s, r),
        )[i],
    decreases n,
{
    lemma_attention_count(z, s, layer, n - 1);
    if r < n - 1 {
        lemma_attention_call(z, s, layer, n - 1, r, i);
    }
}

proof fn lemma_layers_call<C>(z: Sizes, s: Seq<Request<C>>, n: int, layer: int, j: int)
    requires
        0 <= layer < n,
        0 <= j < 9 + 7 * s.len(),
    ensures
        0 <= layer * (9 + 7 * s.len()) + j < n * (9 + 7 * s.len()),
        layers_steps(z, s, n)[layer * (9 + 7 * s.len()) + j] == layer_steps(
            z,
            s,
            layer as usize,
        )[j],
    decreases n,
{
    let block = 9 + 7 * s.len();
    lemma_layers_count(z, s, n - 1);
    lemma_attention_count(z, s, (n - 1) as usize, s.len() as int);
    assert(n * block == (n - 1) * block + block) by (nonlinear_arith);
    assert(0 <= layer * block) by (nonlinear_arith)
        requires
            0 <= layer,
            0 <= block,
    ;
    if layer < n - 1 {
        lemma_layers_call(z, s, n - 1, layer, j);
    }
}

/// Call `j` of a layer stands where the layer begins plus `j`.
proof fn lemma_layer_call<C>(model: ModelConfig, s: Seq<Request<C>>, layer: int, j: int)
    requires
        0 <= layer < model.num_hidden_layers,
        0 <= j < 9 + 7 * s.len(),
    ensures
        0 < 1 + layer * (9 + 7 * s.len()) + j < 1 + model.num_hidden_layers * (9 + 7 * s.len())
            <= pass_steps(model, s).len(),
        pass_steps(model, s)[1 + layer * (9 + 7 * s.len()) + j] == layer_steps(
            model.lengths(),
            s,
            layer as usize,
        )[j],
{
    let n = model.num_hidden_layers as int;
    lemma_layers_count(model.lengths(), s, n);
    lemma_layers_call(model.lengths(), s, n, layer, j);
}

/// A pass begins with the call that looks the new tokens up.
pub proof fn law_pass_looks_up_tokens<C>(model: ModelConfig, s: Seq<Request<C>>)
    ensures
        pass_steps(model, s).len() > 0,
        pass_steps(model, s)[0] == (Step::Gather {
            out: Expr::Whole(Name::X0),
            table: Expr::Whole(Name::EmbedTokens),
        }),
{
}

/// A layer begins with the norm of the tokens, their projection to queries, keys
/// and values, and the rotation of the queries and of the keys.
pub proof fn law_layer_projects<C>(model: ModelConfig, s: Seq<Request<C>>, layer: usize)
    requires
        layer < model.num_hidden_layers,
    ensures
        ({
            let z = model.lengths();
            let nt = offset(s, s.len() as int) as udim;
            let at = 1 + layer * (9 + 7 * s.len());
            let lens = Dims::Three(z.d, z.dkv, z.dkv);
            let qkv = Box::new(Expr::Whole(Name::Qkv));
            let steps = pass_steps(model, s);
            &&& 0 < at
            &&& at + 4 <= steps.len()
            &&& steps[at] == (Step::RmsNorm {
                out: Expr::Whole(Name::X1),
                input: Expr::Whole(Name::X0),
                weight: Expr::Whole(Name::InputLayernorm(layer)),
            })
            &&& steps[at + 1] == (Step::MatMul {
                out: Expr::Whole(Name::Qkv),
                accumulate: false,
                a: Expr::Whole(Name::X1),
                b: Expr::Transpose(Box::new(Expr::Whole(Name::WQkv(layer))), Dims::Two(1, 0)),
                scale: Scale::One,
            })
            &&& steps[at + 2] == (Step::RotaryEmbedding {
                x: Expr::Reshape(
                    Box::new(Expr::Part { of: qkv, lens, index: 0 }),
                    Dims::Three(nt, z.nh, z.dh),
                ),
            })
            &&& steps[at + 3] == (Step::RotaryEmbedding {
                x: Expr::Reshape(
                    Box::new(Expr::Part { of: qkv, lens, index: 1 }),
                    Dims::Three(nt, z.nkvh, z.dh),
                ),
            })
        }),
{
    lemma_layer_call(model, s, layer as int, 0);
    lemma_layer_call(model, s, layer as int, 1);
    lemma_layer_call(model, s, layer as int, 2);
    lemma_layer_call(model, s, layer as int, 3);
}

/// Behind the projection of a layer stand seven calls for each request, in the
/// order of the batch: the new queries, keys and values of the request are
/// copied to their buffer and to its caches of the layer, the queries are
/// multiplied with all keys so far, the scores go through softmax and are
/// multiplied with all values so far, and the product goes back to the tokens.
pub proof fn law_request_attends<C>(
    model: ModelConfig,
    s: Seq<Request<C>>,
    layer: usize,
    r: usize,
)
    requires
        decodable(model, s),
        layer < model.num_hidden_layers,
        r < s.len(),
    ensures
        ({
            let z = model.lengths();
            let nt = offset(s, s.len() as int) as udim;
            let row = offset(s, r as int) as udim;
            let pos = s[r as int].pos;
            let new = s[r as int].tokens() as udim;
            let all = (s[r as int].pos + s[r as int].tokens()) as udim;
            let at = 1 + layer * (9 + 7 * s.len()) + 4 + 7 * r;
            let grouped = (z.head_group * new) as udim;
            let lens = Dims::Three(z.d, z.dkv, z.dkv);
            let qkv = Box::new(Expr::Whole(Name::Qkv));
            let keys = Box::new(Expr::Whole(Name::KeyCache { request: r, layer }));
            let values = Box::new(Expr::Whole(Name::ValueCache { request: r, layer }));
            let own = Ranges::Three(Range::All, Range::Span { from: row, take: new }, Range::All);
            let late = Ranges::Three(Range::All, Range::Span { from: pos, take: new }, Range::All);
            let early = Ranges::Three(Range::All, Range::Span { from: 0, take: all }, Range::All);
            let scores = Expr::Over(Buffer::Attention, Dims::Three(z.nkvh, grouped, all));
            let by_query = Expr::Reshape(Box::new(scores), Dims::Three(z.nh, new, all));
            let queries = Expr::Over(Buffer::Query, Dims::Three(z.nh, new, z.dh));
            let by_head = Dims::Three(1, 0, 2);
            let steps = pass_steps(model, s);
            &&& 0 < at
            &&& at + 7 <= steps.len()
            &&& steps[at] == (Step::Reform {
                from: Expr::Slice(
                    Box::new(
                        Expr::Transpose(
                            Box::new(
                                Expr::Reshape(
                                    Box::new(Expr::Part { of: qkv, lens, index: 0 }),
                                    Dims::Three(nt, z.nh, z.dh),
                                ),
                            ),
                            by_head,
                        ),
                    ),
                    own,
                ),
                to: queries,
            })
            &&& steps[at + 1] == (Step::Reform {
                from: Expr::Slice(
                    Box::new(
                        Expr::Transpose(
                            Box::new(
                                Expr::Reshape(
                                    Box::new(Expr::Part { of: qkv, lens, index: 1 }),
                                    Dims::Three(nt, z.nkvh, z.dh),
                                ),
                            ),
                            by_head,
                        ),
                    ),
                    own,
                ),
                to: Expr::Slice(keys, late),
            })
            &&& steps[at + 2] == (Step::Reform {
                from: Expr::Slice(
                    Box::new(
                        Expr::Transpose(
                            Box::new(
                                Expr::Reshape(
                                    Box::new(Expr::Part { of: qkv, lens, index: 2 }),
                                    Dims::Three(nt, z.nkvh, z.dh),
                                ),
                            ),
                            by_head,
                        ),
                    ),
                    own,
                ),
                to: Expr::Slice(values, late),
            })
            &&& steps[at + 3] == (Step::MatMul {
                out: scores,
                accumulate: false,
                a: Expr::Reshape(Box::new(queries), Dims::Three(z.nkvh, grouped, z.dh)),
                b: Expr::Transpose(Box::new(Expr::Slice(keys, early)), Dims::Three(0, 2, 1)),
                scale: Scale::HeadDim,
            })
            &&& steps[at + 4] == (Step::Softmax { x: by_query })
            &&& steps[at + 5] == (Step::MatMul {
                out: Expr::Whole(Name::X2),
                accumulate: false,
                a: Expr::Reshape(Box::new(by_query), Dims::Three(z.nkvh, grouped, all)),
                b: Expr::Slice(values, early),
                scale: Scale::One,
            })
            &&& steps[at + 6] == (Step::Reform {
                from: Expr::Transpose(
                    Box::new(
                        Expr::Reshape(
                            Box::new(Expr::Whole(Name::X2)),
                            Dims::Three(z.nh, new, z.dh),
                        ),
                    ),
                    by_head,
                ),
                to: Expr::Reshape(
                    Box::new(Expr::Whole(Name::X1)),
                    Dims::Three(new, z.nh, z.dh),
                ),
            })
        }),
{
    lemma_request_call(model, s, layer, r as int, 0);
    lemma_request_call(model, s, layer, r as int, 1);
    lemma_request_call(model, s, layer, r as int, 2);
    lemma_request_call(model, s, layer, r as int, 3);
    lemma_request_call(model, s, layer, r as int, 4);
    lemma_request_call(model, s, layer, r as int, 5);
    lemma_request_call(model, s, layer, r as int, 6);
}

/// Call `i` of the attention of request `r` stands where the attention of the
/// request begins plus `i`.
proof fn lemma_request_call<C>(
    model: ModelConfig,
    s: Seq<Request<C>>,
    layer: usize,
    r: int,
    i: int,
)
    requires
        layer < model.num_hidden_layers,
        0 <= r < s.len(),
        0 <= i < 7,
    ensures
        0 < 1 + layer * (9 + 7 * s.len()) + 4 + 7 * r + i < pass_steps(model, s).len(),
        pass_steps(model, s)[1 + layer * (9 + 7 * s.len()) + 4 + 7 * r + i] == attend_steps(
            model.lengths(),
            offset(s, s.len() as int) as udim,
            layer,
            window_of(s, r),
        )[i],
{
    lemma_layer_call(model, s, layer as int, 4 + 7 * r + i);
    lemma_attention_call(model.lengths(), s, layer, s.len() as int, r, i);
}

/// Call `i` after the attention of a layer stands where the attention ends plus
/// `i`.
proof fn lemma_feed_call<C>(model: ModelConfig, s: Seq<Request<C>>, layer: usize, i: int)
    requires
        layer < model.num_hidden_layers,
        0 <= i < 5,
    ensures
        0 < 1 + layer * (9 + 7 * s.len()) + 4 + 7 * s.len() + i < pass_steps(model, s).len(),
        pass_steps(model, s)[1 + layer * (9 + 7 * s.len()) + 4 + 7 * s.len() + i]
            == feed_forward_steps(model.lengths(), layer)[i],
{
    lemma_layer_call(model, s, layer as int, 4 + 7 * s.len() + i);
    lemma_attention_count(model.lengths(), s, layer, s.len() as int);
}

/// A layer ends with five calls: the attention output is projected and added to
/// the tokens, these are normed and projected to both branches of the
/// feed-forward part, one branch gates the other, and the gated branch is
/// projected and added to the tokens.
pub proof fn law_layer_feeds_forward<C>(model: ModelConfig, s: Seq<Request<C>>, layer: usize)
    requires
        layer < model.num_hidden_layers,
    ensures
        ({
            let z = model.lengths();
            let at = 1 + layer * (9 + 7 * s.len()) + 4 + 7 * s.len();
            let branches = Box::new(Expr::Whole(Name::GateUp));
            let gate = Expr::Part { of: branches, lens: Dims::Two(z.di, z.di), index: 0 };
            let up = Expr::Part { of: branches, lens: Dims::Two(z.di, z.di), index: 1 };
            let swap = Dims::Two(1, 0);
            let steps = pass_steps(model, s);
            &&& 0 < at
            &&& at + 5 <= steps.len()
            &&& steps[at] == (Step::MatMul {
                out: Expr::Whole(Name::X0),
                accumulate: true,
                a: Expr::Whole(Name::X1),
                b: Expr::Transpose(Box::new(Expr::Whole(Name::SelfAttnOProj(layer))), swap),
                scale: Scale::One,
            })
            &&& steps[at + 1] == (Step::RmsNorm {
                out: Expr::Whole(Name::X1),
                input: Expr::Whole(Name::X0),
                weight: Expr::Whole(Name::PostAttentionLayernorm(layer)),
            })
            &&& steps[at + 2] == (Step::MatMul {
                out: Expr::Whole(Name::GateUp),
                accumulate: false,
                a: Expr::Whole(Name::X1),
                b: Expr::Transpose(Box::new(Expr::Whole(Name::MlpGateUp(layer))), swap),
                scale: Scale::One,
            })
            &&& steps[at + 3] == (Step::Swiglu { gate, up })
            &&& steps[at + 4] == (Step::MatMul {
                out: Expr::Whole(Name::X0),
                accumulate: true,
                a: gate,
                b: Expr::Transpose(Box::new(Expr::Whole(Name::MlpDown(layer))), swap),
                scale: Scale::One,
            })
        }),
{
    lemma_feed_call(model, s, layer, 0);
    lemma_feed_call(model, s, layer, 1);
    lemma_feed_call(model, s, layer, 2);
    lemma_feed_call(model, s, layer, 3);
    lemma_feed_call(model, s, layer, 4);
}

/// Behind the layers the rows of the decoding requests, which are the first
/// ones, are normed and projected to the vocabulary; where no request decodes
/// nothing stands there.
pub proof fn law_pass_ends_with_logits<C>(model: ModelConfig, s: Seq<Request<C>>)
    requires
        decodable(model, s),
    ensures
        ({
            let at = 1 + model.num_hidden_layers * (9 + 7 * s.len());
            let batch = decodes_from(s, 0) as udim;
            let x = Expr::Slice(
                Box::new(Expr::Whole(Name::X0)),
                Ranges::Two(Range::Span { from: 0, take: batch }, Range::All),
            );
            let steps = pass_steps(model, s);
            &&& batch == decodes_from(s, 0)
            &&& batch == 0 ==> steps.len() == at
            &&& batch > 0 ==> steps.len() == at + 2
            &&& batch > 0 ==> steps[at] == (Step::RmsNormInplace {
                x,
                weight: Expr::Whole(Name::ModelNorm),
            })
            &&& batch > 0 ==> steps[at + 1] == (Step::MatMul {
                out: Expr::Whole(Name::Logits),
                accumulate: false,
                a: x,
                b: Expr::Transpose(Box::new(Expr::Whole(Name::LmHead)), Dims::Two(1, 0)),
                scale: Scale::One,
            })
        }),
{
    lemma_layers_count(model.lengths(), s, model.num_hidden_layers as int);
    law_decoding_within_tokens(s);
}

/// The call reads or writes the tensor `name`, or a view of it.
pub open spec fn names(step: Step, name: Name) -> bool {
    base_of(output_of(step)) == Some(name) || exists|i: int|
        0 <= i < inputs_of(step).len() && base_of(#[trigger] inputs_of(step)[i]) == Some(name)
}

/// The layer that a weight or a cache belongs to.
pub open spec fn layer_of(name: Name) -> Option<usize> {
    match name {
        Name::InputLayernorm(layer) => Some(layer),
        Name::WQkv(layer) => Some(layer),
        Name::SelfAttnOProj(layer) => Some(layer),
        Name::PostAttentionLayernorm(layer) => Some(layer),
        Name::MlpGateUp(layer) => Some(layer),
        Name::MlpDown(layer) => Some(layer),
        Name::KeyCache { layer, .. } => Some(layer),
        Name::ValueCache { layer, .. } => Some(layer),
        _ => None,
    }
}

/// The name is that of a weight.
pub open spec fn is_weight(name: Name) -> bool {
    match name {
        Name::EmbedTokens | Name::ModelNorm | Name::LmHead => true,
        Name::KeyCache { .. } | Name::ValueCache { .. } => false,
        _ => layer_of(name) is Some,
    }
}

proof fn lemma_project_names(z: Sizes, nt: udim, layer: usize, i: int, name: Name)
    requires
        0 <= i < 4,
        names(project_steps(z, nt, layer)[i], name),
    ensures
        name is X0 || name is X1 || name is Qkv || name == Name::InputLayernorm(layer) && i == 0
            || name == Name::WQkv(layer) && i == 1,
{
    reveal_with_fuel(base_of, 6);
    let step = project_steps(z, nt, layer)[i];
    if base_of(output_of(step)) != Some(name) {
        let e = choose|e: int|
            0 <= e < inputs_of(step).len() && base_of(#[trigger] inputs_of(step)[e]) == Some(name);
        assert(e == 0 || e == 1 || e == 2);
    }
}

proof fn lemma_attend_names<C>(
    z: Sizes,
    s: Seq<Request<C>>,
    nt: udim,
    layer: usize,
    r: int,
    i: int,
    name: Name,
)
    requires
        0 <= r < s.len() <= usize::MAX,
        0 <= i < 7,
        names(attend_steps(z, nt, layer, window_of(s, r))[i], name),
    ensures
        name is X1 || name is X2 || name is Qkv || name == (Name::KeyCache {
            request: r as usize,
            layer,
        }) || name == (Name::ValueCache { request: r as usize, layer }),
{
    reveal_with_fuel(base_of, 6);
    let step = attend_steps(z, nt, layer, window_of(s, r))[i];
    if base_of(output_of(step)) != Some(name) {
        let e = choose|e: int|
            0 <= e < inputs_of(step).len() && base_of(#[trigger] inputs_of(step)[e]) == Some(name);
        assert(e == 0 || e == 1 || e == 2);
    }
}

proof fn lemma_feed_names(z: Sizes, layer: usize, i: int, name: Name)
    requires
        0 <= i < 5,
        names(feed_forward_steps(z, layer)[i], name),
    ensures
        name is X0 || name is X1 || name is GateUp || name == Name::SelfAttnOProj(layer) && i == 0
            || name == Name::PostAttentionLayernorm(layer) && i == 1 || name == Name::MlpGateUp(
            layer,
        ) && i == 2 || name == Name::MlpDown(layer) && i == 4,
{
    reveal_with_fuel(base_of, 6);
    let step = feed_forward_steps(z, layer)[i];
    if base_of(output_of(step)) != Some(name) {
        let e = choose|e: int|
            0 <= e < inputs_of(step).len() && base_of(#[trigger] inputs_of(step)[e]) == Some(name);
        assert(e == 0 || e == 1 || e == 2);
    }
}

/// The layer that call `k` belongs to and its number in the layer.
proof fn lemma_where<C>(model: ModelConfig, s: Seq<Request<C>>, k: int) -> (place: (int, int))
    requires
        0 < k < 1 + model.num_hidden_layers * (9 + 7 * s.len()),
    ensures
        0 <= place.0 < model.num_hidden_layers,
        0 <= place.1 < 9 + 7 * s.len(),
        k == 1 + place.0 * (9 + 7 * s.len()) + place.1,
        pass_steps(model, s)[k] == layer_steps(model.lengths(), s, place.0 as usize)[place.1],
{
    let block = (9 + 7 * s.len()) as int;
    let n = model.num_hidden_layers as int;
    let layer = (k - 1) / block;
    let j = (k - 1) % block;
    vstd::arithmetic::div_mod::lemma_fundamental_div_mod(k - 1, block);
    vstd::arithmetic::div_mod::lemma_mod_bound(k - 1, block);
    vstd::arithmetic::div_mod::lemma_div_pos_is_pos(k - 1, block);
    assert(block * layer == layer * block) by (nonlinear_arith);
    assert(layer < n) by (nonlinear_arith)
        requires
            layer * block <= k - 1 < n * block,
            0 < block,
    ;
    lemma_layer_call(model, s, layer, j);
    (layer, j)
}

/// The request whose attention call `j` of a layer belongs to and its number
/// there.
proof fn lemma_whose<C>(z: Sizes, s: Seq<Request<C>>, layer: usize, j: int) -> (place: (int, int))
    requires
        4 <= j < 4 + 7 * s.len(),
    ensures
        0 <= place.0 < s.len(),
        0 <= place.1 < 7,
        j == 4 + 7 * place.0 + place.1,
        layer_steps(z, s, layer)[j] == attend_steps(
            z,
            offset(s, s.len() as int) as udim,
            layer,
            window_of(s, place.0),
        )[place.1],
{
    let r = (j - 4) / 7;
    let i = (j - 4) % 7;
    lemma_attention_call(z, s, layer, s.len() as int, r, i);
    (r, i)
}

/// Every weight is taken at one place of the pass, and a cache only in the
/// attention of its request and layer.
pub proof fn law_names_have_their_place<C>(
    model: ModelConfig,
    s: Seq<Request<C>>,
    k: int,
    name: Name,
)
    requires
        decodable(model, s),
        s.len() <= usize::MAX,
        0 <= k < pass_steps(model, s).len(),
        names(pass_steps(model, s)[k], name),
    ensures
        layer_of(name) matches Some(layer) ==> layer < model.num_hidden_layers,
        match name {
            Name::EmbedTokens => k == 0,
            Name::InputLayernorm(layer) => k == 1 + layer * (9 + 7 * s.len()),
            Name::WQkv(layer) => k == 1 + layer * (9 + 7 * s.len()) + 1,
            Name::KeyCache { request, layer } | Name::ValueCache { request, layer } => {
                let at = 1 + layer * (9 + 7 * s.len()) + 4 + 7 * request;
                request < s.len() && at <= k < at + 7
            },
            Name::SelfAttnOProj(layer) => k == 1 + layer * (9 + 7 * s.len()) + 4 + 7 * s.len(),
            Name::PostAttentionLayernorm(layer) => k == 1 + layer * (9 + 7 * s.len()) + 5 + 7
                * s.len(),
            Name::MlpGateUp(layer) => k == 1 + layer * (9 + 7 * s.len()) + 6 + 7 * s.len(),
            Name::MlpDown(layer) => k == 1 + layer * (9 + 7 * s.len()) + 8 + 7 * s.len(),
            Name::ModelNorm => k == 1 + model.num_hidden_layers * (9 + 7 * s.len()),
            Name::LmHead => k == 1 + model.num_hidden_layers * (9 + 7 * s.len()) + 1,
            _ => true,
        },
{
    let z = model.lengths();
    let end = 1 + model.num_hidden_layers * (9 + 7 * s.len());
    law_pass_ends_with_logits(model, s);
    if 0 < k < end {
        let (layer, j) = lemma_where(model, s, k);
        let nt = offset(s, s.len() as int) as udim;
        lemma_attention_count(z, s, layer as usize, s.len() as int);
        if j < 4 {
            lemma_project_names(z, nt, layer as usize, j, name);
        } else if j < 4 + 7 * s.len() {
            let (r, i) = lemma_whose(z, s, layer as usize, j);
            lemma_attend_names(z, s, nt, layer as usize, r, i, name);
        } else {
            lemma_feed_names(z, layer as usize, j - 4 - 7 * s.len(), name);
        }
    } else {
        reveal_with_fuel(base_of, 3);
        law_pass_looks_up_tokens(model, s);
        let step = pass_steps(model, s)[k];
        if base_of(output_of(step)) != Some(name) {
            let e = choose|e: int|
                0 <= e < inputs_of(step).len() && base_of(#[trigger] inputs_of(step)[e]) == Some(
                    name,
                );
            assert(e == 0 || e == 1 || e == 2);
        }
    }
}

/// The layers run in their order: a call that takes a weight or a cache of a
/// layer stands before every call that takes one of a later layer.
pub proof fn law_layers_in_turn<C>(
    model: ModelConfig,
    s: Seq<Request<C>>,
    j: int,
    k: int,
    early: Name,
    late: Name,
)
    requires
        decodable(model, s),
        s.len() <= usize::MAX,
        0 <= j < pass_steps(model, s).len(),
        0 <= k < pass_steps(model, s).len(),
        names(pass_steps(model, s)[j], early),
        names(pass_steps(model, s)[k], late),
        layer_of(early) is Some,
        layer_of(late) is Some,
        layer_of(early)->0 < layer_of(late)->0,
    ensures
        0 < j < k,
{
    law_names_have_their_place(model, s, j, early);
    law_names_have_their_place(model, s, k, late);
    let block = (9 + 7 * s.len()) as int;
    let a = layer_of(early)->0 as int;
    let b = layer_of(late)->0 as int;
    assert(a * block + block <= b * block) by (nonlinear_arith)
        requires
            a + 1 <= b,
            0 < block,
    ;
    assert(0 <= a * block) by (nonlinear_arith)
        requires
            0 <= a,
            0 < block,
    ;
}

/// Where there is a layer, the call after the one that looks the tokens up norms
/// them with the scale of the first layer.
pub proof fn law_first_layer_comes_first<C>(model: ModelConfig, s: Seq<Request<C>>)
    requires
        model.num_hidden_layers > 0,
    ensures
        pass_steps(model, s).len() > 1,
        pass_steps(model, s)[1] == (Step::RmsNorm {
            out: Expr::Whole(Name::X1),
            input: Expr::Whole(Name::X0),
            weight: Expr::Whole(Name::InputLayernorm(0)),
        }),
{
    law_layer_projects(model, s, 0);
    assert(0 * (9 + 7 * s.len()) == 0) by (nonlinear_arith);
}

/// From the call that takes the first scale of a layer to the one that takes
/// that of the next layer, or to the end, no weight and no cache of another
/// layer is taken.
pub proof fn law_layer_keeps_to_itself<C>(
    model: ModelConfig,
    s: Seq<Request<C>>,
    layer: usize,
    begin: int,
    end: int,
    k: int,
    name: Name,
)
    requires
        decodable(model, s),
        s.len() <= usize::MAX,
        layer < model.num_hidden_layers,
        0 <= begin <= k < end <= pass_steps(model, s).len(),
        names(pass_steps(model, s)[begin], Name::InputLayernorm(layer)),
        layer + 1 < model.num_hidden_layers ==> end < pass_steps(model, s).len() && names(
            pass_steps(model, s)[end],
            Name::InputLayernorm((layer + 1) as usize),
        ),
        names(pass_steps(model, s)[k], name),
        layer_of(name) is Some,
    ensures
        layer_of(name) == Some(layer),
{
    let block = (9 + 7 * s.len()) as int;
    let x = layer_of(name)->0 as int;
    law_names_have_their_place(model, s, begin, Name::InputLayernorm(layer));
    law_names_have_their_place(model, s, k, name);
    if x < layer {
        assert(x * block + block <= layer * block) by (nonlinear_arith)
            requires
                x + 1 <= layer,
                0 < block,
        ;
    }
    if x > layer {
        law_names_have_their_place(
            model,
            s,
            end,
            Name::InputLayernorm((layer + 1) as usize),
        );
        assert((layer + 1) * block <= x * block) by (nonlinear_arith)
            requires
                layer + 1 <= x,
                0 < block,
        ;
    }
}

proof fn lemma_reads(step: Step, i: int, name: Name)
    requires
        0 <= i < inputs_of(step).len(),
        base_of(inputs_of(step)[i]) == Some(name),
    ensures
        names(step, name),
{
}

/// The call that takes a weight of a layer.
proof fn lemma_layer_takes<C>(
    model: ModelConfig,
    s: Seq<Request<C>>,
    layer: usize,
    name: Name,
) -> (k: int)
    requires
        layer < model.num_hidden_layers,
        is_weight(name),
        layer_of(name) == Some(layer),
    ensures
        0 <= k < pass_steps(model, s).len(),
        names(pass_steps(model, s)[k], name),
{
    reveal_with_fuel(base_of, 3);
    let steps = pass_steps(model, s);
    let at = 1 + layer * (9 + 7 * s.len());
    let behind = at + 4 + 7 * s.len();
    if name is InputLayernorm || name is WQkv {
        law_layer_projects(model, s, layer);
        let k = if name is InputLayernorm {
            at
        } else {
            at + 1
        };
        lemma_reads(steps[k], 1, name);
        k
    } else {
        law_layer_feeds_forward(model, s, layer);
        let k = match name {
            Name::SelfAttnOProj(_) => behind,
            Name::PostAttentionLayernorm(_) => behind + 1,
            Name::MlpGateUp(_) => behind + 2,
            _ => behind + 4,
        };
        lemma_reads(steps[k], 1, name);
        k
    }
}

/// The call that takes a weight that belongs to no layer.
proof fn lemma_frame_takes<C>(model: ModelConfig, s: Seq<Request<C>>, name: Name) -> (k: int)
    requires
        decodable(model, s),
        name is EmbedTokens || decodes_from(s, 0) > 0,
        is_weight(name),
        layer_of(name) is None,
    ensures
        0 <= k < pass_steps(model, s).len(),
        names(pass_steps(model, s)[k], name),
{
    reveal_with_fuel(base_of, 3);
    let steps = pass_steps(model, s);
    let at = 1 + model.num_hidden_layers * (9 + 7 * s.len());
    lemma_layers_count(model.lengths(), s, model.num_hidden_layers as int);
    law_pass_looks_up_tokens(model, s);
    law_pass_ends_with_logits(model, s);
    if name is EmbedTokens {
        lemma_reads(steps[0], 0, name);
        0
    } else {
        let k = if name is ModelNorm {
            at
        } else {
            at + 1
        };
        lemma_reads(steps[k], 1, name);
        k
    }
}

/// Every weight of the model is taken by exactly one call, as long as there is a
/// request that decodes for those behind the layers.
pub proof fn law_every_weight_is_taken_once<C>(
    model: ModelConfig,
    s: Seq<Request<C>>,
    name: Name,
)
    requires
        decodable(model, s),
        s.len() <= usize::MAX,
        is_weight(name),
        layer_of(name) matches Some(layer) ==> layer < model.num_hidden_layers,
        name is ModelNorm || name is LmHead ==> exists|r: int|
            0 <= r < s.len() && (#[trigger] s[r]).prompt is Decode,
    ensures
        exists|k: int|
            0 <= k < pass_steps(model, s).len() && names(#[trigger] pass_steps(model, s)[k], name),
        forall|j: int, k: int|
            0 <= j < pass_steps(model, s).len() && 0 <= k < pass_steps(model, s).len() && names(
                #[trigger] pass_steps(model, s)[j],
                name,
            ) && names(#[trigger] pass_steps(model, s)[k], name) ==> j == k,
{
    let steps = pass_steps(model, s);
    assert forall|j: int, k: int|
        0 <= j < steps.len() && 0 <= k < steps.len() && names(#[trigger] steps[j], name) && names(
            #[trigger] steps[k],
            name,
        ) implies j == k by {
        law_names_have_their_place(model, s, j, name);
        law_names_have_their_place(model, s, k, name);
    }
    let k = if layer_of(name) is Some {
        lemma_layer_takes(model, s, layer_of(name)->0, name)
    } else {
        if !(name is EmbedTokens) {
            let r = choose|r: int| 0 <= r < s.len() && (#[trigger] s[r]).prompt is Decode;
            assert(s[r].decodes());
            lemma_some_decode(s, r);
        }
        lemma_frame_takes(model, s, name)
    };
    assert(names(steps[k], name));
}

/// In the attention of a request the call that writes the scores takes the keys
/// of that request and layer as its right factor, and the call that writes the
/// output takes the values, both after the new keys and values have been copied
/// there.
pub proof fn law_attention_takes_own_caches<C>(
    model: ModelConfig,
    s: Seq<Request<C>>,
    layer: usize,
    request: usize,
) -> (at: int)
    requires
        decodable(model, s),
        layer < model.num_hidden_layers,
        request < s.len(),
    ensures
        ({
            let steps = pass_steps(model, s);
            let keys = Name::KeyCache { request, layer };
            let values = Name::ValueCache { request, layer };
            &&& 0 < at
            &&& at + 5 < steps.len()
            &&& steps[at + 1] is Reform
            &&& base_of(output_of(steps[at + 1])) == Some(keys)
            &&& steps[at + 2] is Reform
            &&& base_of(output_of(steps[at + 2])) == Some(values)
            &&& steps[at + 3] matches Step::MatMul { out, b, scale, .. } && out is Over && base_of(
                b,
            ) == Some(keys) && scale is HeadDim
            &&& steps[at + 5] matches Step::MatMul { out, b, scale, .. } && out == Expr::Whole(
                Name::X2,
            ) && base_of(b) == Some(values) && scale is One
        }),
{
    reveal_with_fuel(base_of, 4);
    law_request_attends(model, s, layer, request);
    1 + layer * (9 + 7 * s.len()) + 4 + 7 * request
}

/// What a product of the pass takes and how it is written follows from where it
/// goes: a product is added to what is there exactly where it goes to the
/// tokens, it is scaled exactly where it goes to the scores, the scores and no
/// other product take a key cache as right factor, and the attention output and
/// no other takes a value cache.
pub proof fn law_products_take_what_they_should<C>(model: ModelConfig, s: Seq<Request<C>>, k: int)
    requires
        decodable(model, s),
        s.len() <= usize::MAX,
        0 <= k < pass_steps(model, s).len(),
    ensures
        pass_steps(model, s)[k] matches Step::MatMul { out, accumulate, a, b, scale } ==> {
            &&& accumulate <==> base_of(out) == Some(Name::X0)
            &&& scale is HeadDim <==> out is Over
            &&& out is Over <==> (base_of(b) matches Some(name) && name is KeyCache)
            &&& base_of(out) == Some(Name::X2) <==> (base_of(b) matches Some(name)
                && name is ValueCache)
            &&& base_of(out) == Some(Name::X2) ==> {
                let steps = pass_steps(model, s);
                &&& base_of(b) == base_of(output_of(steps[k - 3]))
                &&& steps[k - 2] matches Step::MatMul { b: keys, .. } && base_of(keys)
                    == base_of(output_of(steps[k - 4]))
            }
        },
{
    reveal_with_fuel(base_of, 6);
    let z = model.lengths();
    let end = 1 + model.num_hidden_layers * (9 + 7 * s.len());
    law_pass_looks_up_tokens(model, s);
    law_pass_ends_with_logits(model, s);
    if 0 < k < end {
        let (layer, j) = lemma_where(model, s, k);
        let nt = offset(s, s.len() as int) as udim;
        lemma_attention_count(z, s, layer as usize, s.len() as int);
        if j < 4 {
            assert(pass_steps(model, s)[k] == project_steps(z, nt, layer as usize)[j]);
        } else if j < 4 + 7 * s.len() {
            let (r, i) = lemma_whose(z, s, layer as usize, j);
            law_request_attends(model, s, layer as usize, r as usize);
        } else {
            let i = j - 4 - 7 * s.len();
            assert(pass_steps(model, s)[k] == feed_forward_steps(z, layer as usize)[i]);
        }
    }
}

/// What a view keeps of the middle one of three axes.
pub open spec fn middle_of(view: Expr) -> Range {
    match view {
        Expr::Slice(_, Ranges::Three(_, middle, _)) => middle,
        _ => Range::All,
    }
}

/// The three copies of a request (its queries, keys and values) take as many
/// tokens as it brings, from where those of the request before it end; the first
/// request takes them from the front and the last one up to the end of the batch.
/// They go to its caches behind the earlier tokens, and what it attends to is all
/// of its cache up to there.
pub proof fn law_copies_follow_each_other<C>(
    model: ModelConfig,
    s: Seq<Request<C>>,
    layer: usize,
    r: usize,
    c: int,
)
    requires
        decodable(model, s),
        layer < model.num_hidden_layers,
        r < s.len(),
        s.len() <= usize::MAX,
        0 <= c < 3,
    ensures
        ({
            let steps = pass_steps(model, s);
            let at = 1 + layer * (9 + 7 * s.len()) + 4 + 7 * r;
            &&& at + 7 <= steps.len()
            &&& steps[at + c] matches Step::Reform { from, to } && middle_of(
                from,
            ) matches Range::Span { from: row, take } && {
                &&& take == s[r as int].tokens()
                &&& r == 0 ==> row == 0
                &&& r + 1 == s.len() ==> row + take == offset(s, s.len() as int)
                &&& r + 1 < s.len() ==> (steps[at + c + 7] matches Step::Reform { from: next, .. }
                    && middle_of(next) matches Range::Span { from: next_row, .. } && next_row == row
                    + take)
                &&& c > 0 ==> (middle_of(to) matches Range::Span { from: slot, take: slots } && slot
                    == s[r as int].pos && slots == take && (steps[at + 5] matches Step::MatMul {
                    b,
                    ..
                } && middle_of(b) matches Range::Span { from: first, take: all } && first == 0
                    && all == slot + slots))
            }
        }),
{
    law_request_attends(model, s, layer, r);
    assert(s[r as int].measurable());
    lemma_offset_monotone(s, r + 1, s.len() as int);
    assert(offset(s, 0) == 0);
    if r + 1 < s.len() {
        law_request_attends(model, s, layer, (r + 1) as usize);
    }
}

/// The tensor of another layer that stands where `name` does in its own.
pub open spec fn name_at(name: Name, layer: usize) -> Name {
    match name {
        Name::InputLayernorm(_) => Name::InputLayernorm(layer),
        Name::WQkv(_) => Name::WQkv(layer),
        Name::SelfAttnOProj(_) => Name::SelfAttnOProj(layer),
        Name::PostAttentionLayernorm(_) => Name::PostAttentionLayernorm(layer),
        Name::MlpGateUp(_) => Name::MlpGateUp(layer),
        Name::MlpDown(_) => Name::MlpDown(layer),
        Name::KeyCache { request, .. } => Name::KeyCache { request, layer },
        Name::ValueCache { request, .. } => Name::ValueCache { request, layer },
        _ => name,
    }
}

/// The view with its tensor taken of another layer.
pub open spec fn view_at(view: Expr, layer: usize) -> Expr
    decreases view,
{
    match view {
        Expr::Whole(name) => Expr::Whole(name_at(name, layer)),
        Expr::Over(_, _) => view,
        Expr::Part { of, lens, index } => Expr::Part {
            of: Box::new(view_at(*of, layer)),
            lens,
            index,
        },
        Expr::Reshape(of, dims) => Expr::Reshape(Box::new(view_at(*of, layer)), dims),
        Expr::Transpose(of, axes) => Expr::Transpose(Box::new(view_at(*of, layer)), axes),
        Expr::Slice(of, ranges) => Expr::Slice(Box::new(view_at(*of, layer)), ranges),
    }
}

/// The call with its tensors taken of another layer.
pub open spec fn call_at(step: Step, layer: usize) -> Step {
    match step {
        Step::Gather { out, table } => Step::Gather {
            out: view_at(out, layer),
            table: view_at(table, layer),
        },
        Step::RmsNorm { out, input, weight } => Step::RmsNorm {
            out: view_at(out, layer),
            input: view_at(input, layer),
            weight: view_at(weight, layer),
        },
        Step::RmsNormInplace { x, weight } => Step::RmsNormInplace {
            x: view_at(x, layer),
            weight: view_at(weight, layer),
        },
        Step::MatMul { out, accumulate, a, b, scale } => Step::MatMul {
            out: view_at(out, layer),
            accumulate,
            a: view_at(a, layer),
            b: view_at(b, layer),
            scale,
        },
        Step::RotaryEmbedding { x } => Step::RotaryEmbedding { x: view_at(x, layer) },
        Step::Reform { from, to } => Step::Reform {
            from: view_at(from, layer),
            to: view_at(to, layer),
        },
        Step::Softmax { x } => Step::Softmax { x: view_at(x, layer) },
        Step::Swiglu { gate, up } => Step::Swiglu {
            gate: view_at(gate, layer),
            up: view_at(up, layer),
        },
    }
}

proof fn lemma_project_alike(z: Sizes, nt: udim, one: usize, other: usize, i: int)
    requires
        0 <= i < 4,
    ensures
        project_steps(z, nt, other)[i] == call_at(project_steps(z, nt, one)[i], other),
{
    reveal_with_fuel(view_at, 4);
}

proof fn lemma_heads_alike(z: Sizes, nt: udim, w: Window, index: usize, layer: usize)
    ensures
        view_at(own_heads_of(z, nt, w, index), layer) == own_heads_of(z, nt, w, index),
{
    reveal_with_fuel(view_at, 6);
}

proof fn lemma_attend_alike(z: Sizes, nt: udim, w: Window, one: usize, other: usize, i: int)
    requires
        0 <= i < 7,
    ensures
        attend_steps(z, nt, other, w)[i] == call_at(attend_steps(z, nt, one, w)[i], other),
{
    lemma_heads_alike(z, nt, w, 0, other);
    lemma_heads_alike(z, nt, w, 1, other);
    lemma_heads_alike(z, nt, w, 2, other);
    reveal_with_fuel(view_at, 4);
    let a = attend_steps(z, nt, one, w);
    let b = attend_steps(z, nt, other, w);
    if i == 0 {
        assert(b[0] == call_at(a[0], other));
    } else if i == 1 {
        assert(b[1] == call_at(a[1], other));
    } else if i == 2 {
        assert(b[2] == call_at(a[2], other));
    } else if i == 3 {
        assert(b[3] == call_at(a[3], other));
    } else if i == 4 {
        assert(b[4] == call_at(a[4], other));
    } else if i == 5 {
        assert(b[5] == call_at(a[5], other));
    } else {
        assert(b[6] == call_at(a[6], other));
    }
}

proof fn lemma_feed_alike(z: Sizes, one: usize, other: usize, i: int)
    requires
        0 <= i < 5,
    ensures
        feed_forward_steps(z, other)[i] == call_at(feed_forward_steps(z, one)[i], other),
{
    reveal_with_fuel(view_at, 3);
}

/// The layers make the same calls in the same order, each with its own weights
/// and caches.
pub proof fn law_layers_are_alike<C>(
    model: ModelConfig,
    s: Seq<Request<C>>,
    one: usize,
    other: usize,
    j: int,
)
    requires
        one < model.num_hidden_layers,
        other < model.num_hidden_layers,
        0 <= j < 9 + 7 * s.len(),
    ensures
        ({
            let block = 9 + 7 * s.len();
            let steps = pass_steps(model, s);
            &&& 0 < 1 + one * block + j < steps.len()
            &&& 0 < 1 + other * block + j < steps.len()
            &&& steps[1 + other * block + j] == call_at(steps[1 + one * block + j], other)
        }),
{
    let z = model.lengths();
    let nt = offset(s, s.len() as int) as udim;
    lemma_layer_call(model, s, one as int, j);
    lemma_layer_call(model, s, other as int, j);
    lemma_attention_count(z, s, one, s.len() as int);
    lemma_attention_count(z, s, other, s.len() as int);
    if j < 4 {
        assert(layer_steps(z, s, one)[j] == project_steps(z, nt, one)[j]);
        assert(layer_steps(z, s, other)[j] == project_steps(z, nt, other)[j]);
        lemma_project_alike(z, nt, one, other, j);
    } else if j < 4 + 7 * s.len() {
        let (r, i) = lemma_whose(z, s, one, j);
        lemma_attention_call(z, s, other, s.len() as int, r, i);
        lemma_attend_alike(z, nt, window_of(s, r), one, other, i);
    } else {
        let i = j - 4 - 7 * s.len();
        assert(layer_steps(z, s, one)[j] == feed_forward_steps(z, one)[i]);
        assert(layer_steps(z, s, other)[j] == feed_forward_steps(z, other)[i]);
        lemma_feed_alike(z, one, other, i);
    }
}

} // verus!

//! The kernel calls of a decoding pass.
use crate::calls::{law_layers_in_turn, layer_of, names};
use crate::data_type::DataType;
use crate::expr::{Buffer, Dims, Expr, Name, Range, Ranges};
use crate::model::{ModelConfig, Sizes, Transformer};
use crate::request::{
    alike, all_alike, count_decoding, countable, decodes_from, decoding_first, has_layers,
    law_caches_are_not_measured, law_decoding_in_front, law_decoding_rows_lead,
    law_decoding_within_tokens, law_order_keeps_decoding, law_order_keeps_extent, layered,
    lemma_none_decode, lemma_offset_monotone, lemma_some_decode, longest_att, longest_seq, measure,
    offset, places, positions, put_decoding_first, upos, Request,
};
use crate::shape::udim;
use crate::tensor::{
    byte_len, law_block_in_numbers, law_stack_in_numbers, law_table_in_numbers, product, storable,
    tensor, Tensor,
};
use vstd::prelude::*;

verus! {

/// What the product of a matrix multiplication is scaled by.
#[derive(Clone, Copy, Debug, PartialEq, Eq, Structural)]
pub enum Scale {
    /// Nothing.
    One,
    /// The reciprocal of the square root of the width of a head.
    HeadDim,
}

/// A kernel call.
#[derive(Debug, PartialEq, Eq)]
pub enum Step {
    /// Rows of a table, one for each new token of the batch.
    Gather {
        /// Where the rows go.
        out: Expr,
        /// The table.
        table: Expr,
    },
    /// Root mean square norm of every row.
    RmsNorm {
        /// Where the rows go.
        out: Expr,
        /// The rows.
        input: Expr,
        /// What the columns are scaled by.
        weight: Expr,
    },
    /// Root mean square norm of every row, in place.
    RmsNormInplace {
        /// The rows.
        x: Expr,
        /// What the columns are scaled by.
        weight: Expr,
    },
    /// Matrix multiplication.
    MatMul {
        /// Where the product goes.
        out: Expr,
        /// Whether the product is added to what is there.
        accumulate: bool,
        /// The left factor.
        a: Expr,
        /// The right factor.
        b: Expr,
        /// What the product is scaled by.
        scale: Scale,
    },
    /// Rotary embedding of heads by the places of their tokens, in place.
    RotaryEmbedding {
        /// The heads.
        x: Expr,
    },
    /// Copy into another layout.
    Reform {
        /// What is copied.
        from: Expr,
        /// Where it goes.
        to: Expr,
    },
    /// Softmax of attention scores, in place.
    Softmax {
        /// The scores.
        x: Expr,
    },
    /// Gating of one branch by the other, in place.
    Swiglu {
        /// The branch that is changed.
        gate: Expr,
        /// The other branch.
        up: Expr,
    },
}

/// What the attention of a request works with.
#[derive(Clone, Copy, Debug, PartialEq, Eq, Structural)]
pub struct Window {
    /// The request, by its place in the batch.
    pub request: usize,
    /// The row at which its tokens begin.
    pub row: udim,
    /// Number of the earlier tokens.
    pub pos: udim,
    /// Number of the new tokens.
    pub seq_len: udim,
    /// Number of the attended tokens.
    pub att_len: udim,
}

/// The window of request `r`.
pub open spec fn window_of<C>(s: Seq<Request<C>>, r: int) -> Window {
    Window {
        request: r as usize,
        row: offset(s, r) as udim,
        pos: s[r].pos,
        seq_len: s[r].tokens() as udim,
        att_len: (s[r].pos + s[r].tokens()) as udim,
    }
}

/// A weight, with the axes exchanged.
pub open spec fn weight_of(name: Name) -> Expr {
    Expr::Transpose(Box::new(Expr::Whole(name)), Dims::Two(1, 0))
}

/// The queries (0), keys (1) or values (2) of all tokens, by head.
pub open spec fn heads_of(z: Sizes, nt: udim, index: usize) -> Expr {
    Expr::Reshape(
        Box::new(
            Expr::Part {
                of: Box::new(Expr::Whole(Name::Qkv)),
                lens: Dims::Three(z.d, z.dkv, z.dkv),
                index,
            },
        ),
        Dims::Three(
            nt,
            if index == 0 {
                z.nh
            } else {
                z.nkvh
            },
            z.dh,
        ),
    )
}

/// The stretch of the middle axis.
pub open spec fn stretch_of(of: Expr, from: udim, take: udim) -> Expr {
    Expr::Slice(Box::new(of), Ranges::Three(Range::All, Range::Span { from, take }, Range::All))
}

/// The heads with the tokens of one request only, the heads outermost.
pub open spec fn own_heads_of(z: Sizes, nt: udim, w: Window, index: usize) -> Expr {
    stretch_of(
        Expr::Transpose(Box::new(heads_of(z, nt, index)), Dims::Three(1, 0, 2)),
        w.row,
        w.seq_len,
    )
}

/// The queries of a request in their buffer.
pub open spec fn queries_of(z: Sizes, w: Window) -> Expr {
    Expr::Over(Buffer::Query, Dims::Three(z.nh, w.seq_len, z.dh))
}

/// The scores of a request by key head: for each, those of the query heads of
/// its group and of the new tokens, one for every attended token.
pub open spec fn scores_dims(z: Sizes, w: Window) -> Dims {
    Dims::Three(z.nkvh, (z.head_group * w.seq_len) as udim, w.att_len)
}

/// The scores of a request in their buffer.
pub open spec fn scores_of(z: Sizes, w: Window) -> Expr {
    Expr::Over(Buffer::Attention, scores_dims(z, w))
}

/// The scores of a request by query head.
pub open spec fn scores_by_query_of(z: Sizes, w: Window) -> Expr {
    Expr::Reshape(Box::new(scores_of(z, w)), Dims::Three(z.nh, w.seq_len, w.att_len))
}

/// The calls of a layer before its attention: norm, projection, and rotation of
/// the queries and keys.
pub open spec fn project_steps(z: Sizes, nt: udim, layer: usize) -> Seq<Step> {
    seq![
        Step::RmsNorm {
            out: Expr::Whole(Name::X1),
            input: Expr::Whole(Name::X0),
            weight: Expr::Whole(Name::InputLayernorm(layer)),
        },
        Step::MatMul {
            out: Expr::Whole(Name::Qkv),
            accumulate: false,
            a: Expr::Whole(Name::X1),
            b: weight_of(Name::WQkv(layer)),
            scale: Scale::One,
        },
        Step::RotaryEmbedding { x: heads_of(z, nt, 0) },
        Step::RotaryEmbedding { x: heads_of(z, nt, 1) },
    ]
}

/// The call that copies the new keys of a request behind the earlier ones.
pub open spec fn keys_step(z: Sizes, nt: udim, layer: usize, w: Window) -> Step {
    Step::Reform {
        from: own_heads_of(z, nt, w, 1),
        to: stretch_of(
            Expr::Whole(Name::KeyCache { request: w.request, layer }),
            w.pos,
            w.seq_len,
        ),
    }
}

/// The call that copies the new values of a request behind the earlier ones.
pub open spec fn values_step(z: Sizes, nt: udim, layer: usize, w: Window) -> Step {
    Step::Reform {
        from: own_heads_of(z, nt, w, 2),
        to: stretch_of(
            Expr::Whole(Name::ValueCache { request: w.request, layer }),
            w.pos,
            w.seq_len,
        ),
    }
}

/// The call that writes the attention output of a request by head.
pub open spec fn mix_step(z: Sizes, layer: usize, w: Window) -> Step {
    Step::MatMul {
        out: Expr::Whole(Name::X2),
        accumulate: false,
        a: Expr::Reshape(Box::new(scores_by_query_of(z, w)), scores_dims(z, w)),
        b: stretch_of(
            Expr::Whole(Name::ValueCache { request: w.request, layer }),
            0,
            w.att_len,
        ),
        scale: Scale::One,
    }
}

/// The call that brings the attention output of a request back to its tokens.
pub open spec fn merge_step(z: Sizes, w: Window) -> Step {
    Step::Reform {
        from: Expr::Transpose(
            Box::new(
                Expr::Reshape(
                    Box::new(Expr::Whole(Name::X2)),
                    Dims::Three(z.nh, w.seq_len, z.dh),
                ),
            ),
            Dims::Three(1, 0, 2),
        ),
        to: Expr::Reshape(
            Box::new(Expr::Whole(Name::X1)),
            Dims::Three(w.seq_len, z.nh, z.dh),
        ),
    }
}

/// The calls of the attention of a request: its queries are copied to their
/// buffer, its keys and values to the cache behind the earlier ones, and the
/// queries attend to all keys and values up to its own.
pub open spec fn attend_steps(z: Sizes, nt: udim, layer: usize, w: Window) -> Seq<Step> {
    let keys = Expr::Whole(Name::KeyCache { request: w.request, layer });
    seq![
        Step::Reform { from: own_heads_of(z, nt, w, 0), to: queries_of(z, w) },
        keys_step(z, nt, layer, w),
        values_step(z, nt, layer, w),
        Step::MatMul {
            out: scores_of(z, w),
            accumulate: false,
            a: Expr::Reshape(
                Box::new(queries_of(z, w)),
                Dims::Three(z.nkvh, (z.head_group * w.seq_len) as udim, z.dh),
            ),
            b: Expr::Transpose(
                Box::new(stretch_of(keys, 0, w.att_len)),
                Dims::Three(0, 2, 1),
            ),
            scale: Scale::HeadDim,
        },
        Step::Softmax { x: scores_by_query_of(z, w) },
        mix_step(z, layer, w),
        merge_step(z, w),
    ]
}

/// The calls of a layer after its attention: projection of the attention output
/// onto the tokens, norm, and the feed-forward part.
pub open spec fn feed_forward_steps(z: Sizes, layer: usize) -> Seq<Step> {
    let gate_up = Expr::Whole(Name::GateUp);
    let gate = Expr::Part { of: Box::new(gate_up), lens: Dims::Two(z.di, z.di), index: 0 };
    let up = Expr::Part { of: Box::new(gate_up), lens: Dims::Two(z.di, z.di), index: 1 };
    seq![
        Step::MatMul {
            out: Expr::Whole(Name::X0),
            accumulate: true,
            a: Expr::Whole(Name::X1),
            b: weight_of(Name::SelfAttnOProj(layer)),
            scale: Scale::One,
        },
        Step::RmsNorm {
            out: Expr::Whole(Name::X1),
            input: Expr::Whole(Name::X0),
            weight: Expr::Whole(Name::PostAttentionLayernorm(layer)),
        },
        Step::MatMul {
            out: gate_up,
            accumulate: false,
            a: Expr::Whole(Name::X1),
            b: weight_of(Name::MlpGateUp(layer)),
            scale: Scale::One,
        },
        Step::Swiglu { gate, up },
        Step::MatMul {
            out: Expr::Whole(Name::X0),
            accumulate: true,
            a: gate,
            b: weight_of(Name::MlpDown(layer)),
            scale: Scale::One,
        },
    ]
}

/// The rows of the decoding requests.
pub open spec fn first_rows_of(batch: udim) -> Expr {
    Expr::Slice(
        Box::new(Expr::Whole(Name::X0)),
        Ranges::Two(Range::Span { from: 0, take: batch }, Range::All),
    )
}

/// The calls after the layers: the rows of the decoding requests are projected
/// to the vocabulary.
pub open spec fn logits_steps(batch: udim) -> Seq<Step> {
    let x = first_rows_of(batch);
    if batch > 0 {
        seq![
            Step::RmsNormInplace { x, weight: Expr::Whole(Name::ModelNorm) },
            Step::MatMul {
                out: Expr::Whole(Name::Logits),
                accumulate: false,
                a: x,
                b: weight_of(Name::LmHead),
                scale: Scale::One,
            },
        ]
    } else {
        Seq::empty()
    }
}

/// The calls of the attention of the requests before `r`.
pub open spec fn attention_steps<C>(
    z: Sizes,
    s: Seq<Request<C>>,
    layer: usize,
    r: int,
) -> Seq<Step>
    decreases r,
{
    let nt = offset(s, s.len() as int) as udim;
    if r <= 0 {
        Seq::empty()
    } else {
        attention_steps(z, s, layer, r - 1) + attend_steps(z, nt, layer, window_of(s, r - 1))
    }
}

/// The calls of a layer.
pub open spec fn layer_steps<C>(z: Sizes, s: Seq<Request<C>>, layer: usize) -> Seq<Step> {
    let nt = offset(s, s.len() as int) as udim;
    project_steps(z, nt, layer) + attention_steps(z, s, layer, s.len() as int)
        + feed_forward_steps(z, layer)
}

/// The calls of the layers before `n`.
pub open spec fn layers_steps<C>(z: Sizes, s: Seq<Request<C>>, n: int) -> Seq<Step>
    decreases n,
{
    if n <= 0 {
        Seq::empty()
    } else {
        layers_steps(z, s, n - 1) + layer_steps(z, s, (n - 1) as usize)
    }
}

/// The call that looks the new tokens up.
pub open spec fn gather_step() -> Step {
    Step::Gather { out: Expr::Whole(Name::X0), table: Expr::Whole(Name::EmbedTokens) }
}

/// The calls of a pass over a batch that stands in its order.
pub open spec fn pass_steps<C>(model: ModelConfig, s: Seq<Request<C>>) -> Seq<Step> {
    let z = model.lengths();
    seq![gather_step()] + layers_steps(z, s, model.num_hidden_layers as int) + logits_steps(
        decodes_from(s, 0) as udim,
    )
}

fn weight(name: Name) -> (e: Expr)
    ensures
        e == weight_of(name),
{
    Expr::Transpose(Box::new(Expr::Whole(name)), Dims::Two(1, 0))
}

fn heads(z: Sizes, nt: udim, index: usize) -> (e: Expr)
    ensures
        e == heads_of(z, nt, index),
{
    let part = Expr::Part {
        of: Box::new(Expr::Whole(Name::Qkv)),
        lens: Dims::Three(z.d, z.dkv, z.dkv),
        index,
    };
    let count: udim = if index == 0 {
        z.nh
    } else {
        z.nkvh
    };
    Expr::Reshape(Box::new(part), Dims::Three(nt, count, z.dh))
}

fn stretch(of: Expr, from: udim, take: udim) -> (e: Expr)
    ensures
        e == stretch_of(of, from, take),
{
    Expr::Slice(Box::new(of), Ranges::Three(Range::All, Range::Span { from, take }, Range::All))
}

fn own_heads(z: Sizes, nt: udim, w: Window, index: usize) -> (e: Expr)
    ensures
        e == own_heads_of(z, nt, w, index),
{
    let by_head = Expr::Transpose(Box::new(heads(z, nt, index)), Dims::Three(1, 0, 2));
    stretch(by_head, w.row, w.seq_len)
}

fn queries(z: Sizes, w: Window) -> (e: Expr)
    ensures
        e == queries_of(z, w),
{
    Expr::Over(Buffer::Query, Dims::Three(z.nh, w.seq_len, z.dh))
}

fn scores_by_query(z: Sizes, w: Window) -> (e: Expr)
    requires
        z.head_group * w.seq_len <= udim::MAX,
    ensures
        e == scores_by_query_of(z, w),
{
    let dims = Dims::Three(z.nkvh, z.head_group * w.seq_len, w.att_len);
    Expr::Reshape(
        Box::new(Expr::Over(Buffer::Attention, dims)),
        Dims::Three(z.nh, w.seq_len, w.att_len),
    )
}

fn push_project(steps: &mut Vec<Step>, z: Sizes, nt: udim, layer: usize)
    ensures
        final(steps)@ == old(steps)@ + project_steps(z, nt, layer),
{
    steps.push(
        Step::RmsNorm {
            out: Expr::Whole(Name::X1),
            input: Expr::Whole(Name::X0),
            weight: Expr::Whole(Name::InputLayernorm(layer)),
        },
    );
    steps.push(
        Step::MatMul {
            out: Expr::Whole(Name::Qkv),
            accumulate: false,
            a: Expr::Whole(Name::X1),
            b: weight(Name::WQkv(layer)),
            scale: Scale::One,
        },
    );
    steps.push(Step::RotaryEmbedding { x: heads(z, nt, 0) });
    steps.push(Step::RotaryEmbedding { x: heads(z, nt, 1) });
    assert(steps@ =~= old(steps)@ + project_steps(z, nt, layer));
}

fn push_attend(steps: &mut Vec<Step>, z: Sizes, nt: udim, layer: usize, w: Window)
    requires
        z.head_group * w.seq_len <= udim::MAX,
    ensures
        final(steps)@ == old(steps)@ + attend_steps(z, nt, layer, w),
{
    let keys = Name::KeyCache { request: w.request, layer };
    let values = Name::ValueCache { request: w.request, layer };
    let rows: udim = z.head_group * w.seq_len;
    steps.push(Step::Reform { from: own_heads(z, nt, w, 0), to: queries(z, w) });
    steps.push(
        Step::Reform {
            from: own_heads(z, nt, w, 1),
            to: stretch(Expr::Whole(keys), w.pos, w.seq_len),
        },
    );
    steps.push(
        Step::Reform {
            from: own_heads(z, nt, w, 2),
            to: stretch(Expr::Whole(values), w.pos, w.seq_len),
        },
    );
    steps.push(
        Step::MatMul {
            out: Expr::Over(Buffer::Attention, Dims::Three(z.nkvh, rows, w.att_len)),
            accumulate: false,
            a: Expr::Reshape(Box::new(queries(z, w)), Dims::Three(z.nkvh, rows, z.dh)),
            b: Expr::Transpose(
                Box::new(stretch(Expr::Whole(keys), 0, w.att_len)),
                Dims::Three(0, 2, 1),
            ),
            scale: Scale::HeadDim,
        },
    );
    steps.push(Step::Softmax { x: scores_by_query(z, w) });
    steps.push(
        Step::MatMul {
            out: Expr::Whole(Name::X2),
            accumulate: false,
            a: Expr::Reshape(
                Box::new(scores_by_query(z, w)),
                Dims::Three(z.nkvh, rows, w.att_len),
            ),
            b: stretch(Expr::Whole(values), 0, w.att_len),
            scale: Scale::One,
        },
    );
    let x2 = Expr::Reshape(
        Box::new(Expr::Whole(Name::X2)),
        Dims::Three(z.nh, w.seq_len, z.dh),
    );
    steps.push(
        Step::Reform {
            from: Expr::Transpose(Box::new(x2), Dims::Three(1, 0, 2)),
            to: Expr::Reshape(
                Box::new(Expr::Whole(Name::X1)),
                Dims::Three(w.seq_len, z.nh, z.dh),
            ),
        },
    );
    assert(steps@ =~= old(steps)@ + attend_steps(z, nt, layer, w));
}

fn push_feed_forward(steps: &mut Vec<Step>, z: Sizes, layer: usize)
    ensures
        final(steps)@ == old(steps)@ + feed_forward_steps(z, layer),
{
    let lens = Dims::Two(z.di, z.di);
    steps.push(
        Step::MatMul {
            out: Expr::Whole(Name::X0),
            accumulate: true,
            a: Expr::Whole(Name::X1),
            b: weight(Name::SelfAttnOProj(layer)),
            scale: Scale::One,
        },
    );
    steps.push(
        Step::RmsNorm {
            out: Expr::Whole(Name::X1),
            input: Expr::Whole(Name::X0),
            weight: Expr::Whole(Name::PostAttentionLayernorm(layer)),
        },
    );
    steps.push(
        Step::MatMul {
            out: Expr::Whole(Name::GateUp),
            accumulate: false,
            a: Expr::Whole(Name::X1),
            b: weight(Name::MlpGateUp(layer)),
            scale: Scale::One,
        },
    );
    steps.push(
        Step::Swiglu {
            gate: Expr::Part { of: Box::new(Expr::Whole(Name::GateUp)), lens, index: 0 },
            up: Expr::Part { of: Box::new(Expr::Whole(Name::GateUp)), lens, index: 1 },
        },
    );
    steps.push(
        Step::MatMul {
            out: Expr::Whole(Name::X0),
            accumulate: true,
            a: Expr::Part { of: Box::new(Expr::Whole(Name::GateUp)), lens, index: 0 },
            b: weight(Name::MlpDown(layer)),
            scale: Scale::One,
        },
    );
    assert(steps@ =~= old(steps)@ + feed_forward_steps(z, layer));
}

fn first_rows(batch: udim) -> (e: Expr)
    ensures
        e == first_rows_of(batch),
{
    Expr::Slice(
        Box::new(Expr::Whole(Name::X0)),
        Ranges::Two(Range::Span { from: 0, take: batch }, Range::All),
    )
}

fn push_logits(steps: &mut Vec<Step>, batch: udim)
    ensures
        final(steps)@ == old(steps)@ + logits_steps(batch),
{
    if batch > 0 {
        steps.push(
            Step::RmsNormInplace { x: first_rows(batch), weight: Expr::Whole(Name::ModelNorm) },
        );
        steps.push(
            Step::MatMul {
                out: Expr::Whole(Name::Logits),
                accumulate: false,
                a: first_rows(batch),
                b: weight(Name::LmHead),
                scale: Scale::One,
            },
        );
    }
    assert(steps@ =~= old(steps)@ + logits_steps(batch));
}

fn push_layer<C>(
    steps: &mut Vec<Step>,
    requests: &Vec<Request<C>>,
    z: Sizes,
    nt: udim,
    layer: usize,
)
    requires
        countable(requests@),
        nt == offset(requests@, requests@.len() as int),
        z.head_group * nt <= udim::MAX,
    ensures
        final(steps)@ == old(steps)@ + layer_steps(z, requests@, layer),
{
    let ghost done = steps@;
    push_project(steps, z, nt, layer);
    let ghost head = project_steps(z, nt, layer);
    assert(steps@ =~= done + head + attention_steps(z, requests@, layer, 0));
    let mut row: udim = 0;
    let mut r: usize = 0;
    while r < requests.len()
        invariant
            r <= requests@.len(),
            countable(requests@),
            nt == offset(requests@, requests@.len() as int),
            z.head_group * nt <= udim::MAX,
            row == offset(requests@, r as int),
            steps@ == done + head + attention_steps(z, requests@, layer, r as int),
        decreases requests@.len() - r,
    {
        proof {
            assert(requests@[r as int].measurable());
            lemma_offset_monotone(requests@, r + 1, requests@.len() as int);
        }
        let w = Window {
            request: r,
            row,
            pos: requests[r].pos,
            seq_len: requests[r].seq_len(),
            att_len: requests[r].att_len(),
        };
        assert(z.head_group * w.seq_len <= z.head_group * nt) by (nonlinear_arith)
            requires
                w.seq_len <= nt,
                0 <= z.head_group,
        ;
        push_attend(steps, z, nt, layer, w);
        row += w.seq_len;
        r += 1;
        assert(steps@ =~= done + head + attention_steps(z, requests@, layer, r as int));
    }
    push_feed_forward(steps, z, layer);
    assert(steps@ =~= done + layer_steps(z, requests@, layer));
}

/// What a pass over a batch does.
pub struct Pass<C> {
    /// The requests in the order in which the pass takes them.
    pub requests: Vec<Request<C>>,
    /// Number of the decoding requests, which stand first.
    pub num_decoding: usize,
    /// The place of every new token in its text.
    pub positions: Vec<upos>,
    /// The tokens between the parts of a layer.
    pub x0: Tensor,
    /// The tokens inside a part of a layer.
    pub x1: Tensor,
    /// The output of the attention, by head.
    pub x2: Tensor,
    /// Queries, keys and values side by side.
    pub qkv: Tensor,
    /// The two branches of the feed-forward part side by side.
    pub gate_up: Tensor,
    /// The result: a row for each decoding request.
    pub logits: Tensor,
    /// Number of bytes of the buffer for queries.
    pub q_buf: usize,
    /// Number of bytes of the buffer for scores.
    pub att_buf: usize,
    /// The kernel calls, in order.
    pub steps: Vec<Step>,
}

/// The shapes of the tensors and buffers of a pass.
pub struct Layout {
    /// Of the tokens, both between and inside the parts of a layer.
    pub x: Seq<udim>,
    /// Of queries, keys and values side by side.
    pub qkv: Seq<udim>,
    /// Of the queries of a request, at most.
    pub q_buf: Seq<udim>,
    /// Of the scores of a request, at most.
    pub att_buf: Seq<udim>,
    /// Of the attention output.
    pub x2: Seq<udim>,
    /// Of the feed-forward branches side by side.
    pub gate_up: Seq<udim>,
    /// Of the result.
    pub logits: Seq<udim>,
}

/// The shapes that a batch needs.
pub open spec fn layout_of<C>(z: Sizes, s: Seq<Request<C>>) -> Layout {
    let n = s.len() as int;
    let nt = offset(s, n) as udim;
    let max_seq_len = longest_seq(s, n) as udim;
    let max_att_len = longest_att(s, n) as udim;
    Layout {
        x: seq![nt, z.d],
        qkv: seq![nt, (z.d + z.dkv + z.dkv) as udim],
        q_buf: seq![z.nh, max_seq_len, z.dh],
        att_buf: seq![z.nkvh, z.head_group, max_seq_len, max_att_len],
        x2: seq![z.nkvh, (z.head_group * nt) as udim, z.dh],
        gate_up: seq![nt, (z.di + z.di) as udim],
        logits: seq![decodes_from(s, 0) as udim, z.voc],
    }
}

/// The model can take the batch: there are requests, each with a cache for
/// every layer, every length fits an axis and every tensor can be stored.
pub open spec fn decodable<C>(model: ModelConfig, s: Seq<Request<C>>) -> bool {
    let z = model.lengths();
    let dt = model.data_type;
    let l = layout_of(z, s);
    &&& s.len() > 0
    &&& layered(s, model.num_hidden_layers as nat)
    &&& countable(s)
    &&& model.divisible()
    &&& z.d + z.dkv + z.dkv <= udim::MAX
    &&& z.di + z.di <= udim::MAX
    &&& z.head_group * offset(s, s.len() as int) <= udim::MAX
    &&& storable(dt, l.x)
    &&& storable(dt, l.qkv)
    &&& storable(dt, l.q_buf)
    &&& storable(dt, l.att_buf)
    &&& storable(dt, l.x2)
    &&& storable(dt, l.gate_up)
    &&& storable(dt, l.logits)
}

/// The tensor has the given type and shape, and exactly the storage for it.
pub open spec fn stored_as(t: Tensor, dt: DataType, shape: Seq<udim>) -> bool {
    &&& t.data_type == dt
    &&& t.shape@ == shape
    &&& t.bytes == product(shape) * dt.bytes()
}

fn fits(dt: DataType, shape: &[udim]) -> (yes: bool)
    ensures
        yes == storable(dt, shape@),
{
    byte_len(dt, shape).is_some()
}

impl Transformer {
    /// Whether the model can take a batch.
    pub fn can_decode<C>(&self, requests: &Vec<Request<C>>) -> (yes: bool)
        ensures
            yes == decodable(self.config(), requests@),
    {
        let model = self.model();
        let dt: DataType = model.data_type;
        if requests.len() == 0 || !has_layers(requests, model.num_hidden_layers) {
            return false;
        }
        match (measure(requests), model.sizes()) {
            (Some(e), Some(z)) => {
                let batch: udim = count_decoding(requests) as udim;
                let nt: udim = e.num_tokens;
                let d3: u64 = z.d as u64 + z.dkv as u64 + z.dkv as u64;
                let di2: u64 = z.di as u64 + z.di as u64;
                if d3 > udim::MAX as u64 || di2 > udim::MAX as u64 {
                    return false;
                }
                match z.head_group.checked_mul(nt) {
                    Some(rows) => {
                        fits(dt, &[nt, z.d]) && fits(dt, &[nt, d3 as udim]) && fits(
                            dt,
                            &[z.nh, e.max_seq_len, z.dh],
                        ) && fits(dt, &[z.nkvh, z.head_group, e.max_seq_len, e.max_att_len])
                            && fits(dt, &[z.nkvh, rows, z.dh]) && fits(dt, &[nt, di2 as udim])
                            && fits(dt, &[batch, z.voc])
                    },
                    None => false,
                }
            },
            _ => false,
        }
    }

    /// Plans a pass over a batch.
    pub fn decode<C>(&self, requests: Vec<Request<C>>) -> (pass: Pass<C>)
        requires
            decodable(self.config(), requests@),
        ensures
            put_decoding_first(requests@, pass.requests@),
            pass.requests@.to_multiset() == requests@.to_multiset(),
            pass.num_decoding == decodes_from(requests@, 0),
            pass.positions@ == places(pass.requests@, pass.requests@.len() as int),
            pass.steps@ == pass_steps(self.config(), pass.requests@),
            pass.stored(self.config(), requests@),
            pass.requests@.len() == requests@.len(),
            forall|i: int|
                0 <= i < pass.requests@.len() ==> ((
                #[trigger] pass.requests@[i]).prompt is Decode <==> i < pass.num_decoding),
            forall|j: int, k: int, early: Name, late: Name|
                0 <= j < pass.steps@.len() && 0 <= k < pass.steps@.len() && #[trigger] names(
                    pass.steps@[j],
                    early,
                ) && #[trigger] names(pass.steps@[k], late) && layer_of(early) is Some && layer_of(
                    late,
                ) is Some && layer_of(early)->0 < layer_of(late)->0 ==> j < k,
    {
        let mut requests = requests;
        let ghost before = requests@;
        let model = self.model();
        let dt: DataType = model.data_type;
        let num_decoding: usize = decoding_first(&mut requests);
        proof {
            law_order_keeps_extent(before, requests@);
            law_order_keeps_decoding(before, requests@);
        }
        let e = measure(&requests).unwrap();
        let z = model.sizes().unwrap();
        let nt: udim = e.num_tokens;
        let batch: udim = num_decoding as udim;
        let pos = positions(&requests);
        let x0 = tensor(dt, &[nt, z.d]);
        let x1 = tensor(dt, &[nt, z.d]);
        let qkv = tensor(dt, &[nt, z.d + z.dkv + z.dkv]);
        let q_buf: usize = byte_len(dt, &[z.nh, e.max_seq_len, z.dh]).unwrap();
        let att_buf: usize = byte_len(
            dt,
            &[z.nkvh, z.head_group, e.max_seq_len, e.max_att_len],
        ).unwrap();
        let x2 = tensor(dt, &[z.nkvh, z.head_group * nt, z.dh]);
        let gate_up = tensor(dt, &[nt, z.di + z.di]);
        let logits = tensor(dt, &[batch, z.voc]);
        let mut steps: Vec<Step> = Vec::new();
        steps.push(
            Step::Gather { out: Expr::Whole(Name::X0), table: Expr::Whole(Name::EmbedTokens) },
        );
        assert(steps@ =~= seq![gather_step()] + layers_steps(z, requests@, 0));
        let mut layer: usize = 0;
        while layer < model.num_hidden_layers
            invariant
                layer <= model.num_hidden_layers,
                countable(requests@),
                nt == offset(requests@, requests@.len() as int),
                z.head_group * nt <= udim::MAX,
                steps@ == seq![gather_step()] + layers_steps(z, requests@, layer as int),
            decreases model.num_hidden_layers - layer,
        {
            push_layer(&mut steps, &requests, z, nt, layer);
            layer += 1;
            assert(steps@ =~= seq![gather_step()] + layers_steps(z, requests@, layer as int));
        }
        push_logits(&mut steps, batch);
        proof {
            let config = self.config();
            assert(requests.len() == requests@.len());
            law_order_keeps_storage(config, before, requests@);
            assert forall|j: int, k: int, early: Name, late: Name|
                0 <= j < steps@.len() && 0 <= k < steps@.len() && #[trigger] names(
                    steps@[j],
                    early,
                ) && #[trigger] names(steps@[k], late) && layer_of(early) is Some && layer_of(
                    late,
                ) is Some && layer_of(early)->0 < layer_of(late)->0 implies j < k by {
                law_layers_in_turn(config, requests@, j, k, early, late);
            }
        }
        Pass {
            requests,
            num_decoding,
            positions: pos,
            x0,
            x1,
            x2,
            qkv,
            gate_up,
            logits,
            q_buf,
            att_buf,
            steps,
        }
    }
}

impl<C> Pass<C> {
    /// The tensors and buffers are those that the batch needs.
    pub open spec fn stored(&self, model: ModelConfig, s: Seq<Request<C>>) -> bool {
        let dt = model.data_type;
        let l = layout_of(model.lengths(), s);
        &&& stored_as(self.x0, dt, l.x)
        &&& stored_as(self.x1, dt, l.x)
        &&& stored_as(self.x2, dt, l.x2)
        &&& stored_as(self.qkv, dt, l.qkv)
        &&& stored_as(self.gate_up, dt, l.gate_up)
        &&& stored_as(self.logits, dt, l.logits)
        &&& self.q_buf == product(l.q_buf) * dt.bytes()
        &&& self.att_buf == product(l.att_buf) * dt.bytes()
    }
}

/// The attention makes seven calls for each request.
pub proof fn lemma_attention_count<C>(z: Sizes, s: Seq<Request<C>>, layer: usize, r: int)
    requires
        0 <= r,
    ensures
        attention_steps(z, s, layer, r).len() == 7 * r,
    decreases r,
{
    if r > 0 {
        lemma_attention_count(z, s, layer, r - 1);
    }
}

/// A layer makes nine calls and those of its attention.
pub proof fn lemma_layers_count<C>(z: Sizes, s: Seq<Request<C>>, n: int)
    requires
        0 <= n,
    ensures
        layers_steps(z, s, n).len() == n * (9 + 7 * s.len()),
    decreases n,
{
    if n > 0 {
        lemma_layers_count(z, s, n - 1);
        lemma_attention_count(z, s, (n - 1) as usize, s.len() as int);
        assert(n * (9 + 7 * s.len()) == (n - 1) * (9 + 7 * s.len()) + (9 + 7 * s.len()))
            by (nonlinear_arith);
    } else {
        assert(n * (9 + 7 * s.len()) == 0) by (nonlinear_arith)
            requires
                n == 0,
        ;
    }
}

/// A pass makes one call before the layers, nine calls in every layer and seven
/// more for each request, and two calls after the layers where a request
/// decodes.
pub proof fn law_number_of_calls<C>(model: ModelConfig, s: Seq<Request<C>>)
    requires
        decodable(model, s),
    ensures
        pass_steps(model, s).len() == 1 + model.num_hidden_layers * (9 + 7 * s.len()) + if exists|
            r: int,
        | 0 <= r < s.len() && (#[trigger] s[r]).decodes() {
            2int
        } else {
            0
        },
{
    lemma_layers_count(model.lengths(), s, model.num_hidden_layers as int);
    law_decoding_within_tokens(s);
    if exists|r: int| 0 <= r < s.len() && (#[trigger] s[r]).decodes() {
        let r = choose|r: int| 0 <= r < s.len() && (#[trigger] s[r]).decodes();
        lemma_some_decode(s, r);
    } else {
        lemma_none_decode(s);
    }
}

/// The shapes and sizes of what a pass stores, in the numbers of the model and
/// the batch.
pub proof fn law_storage_in_numbers<C>(
    model: ModelConfig,
    s: Seq<Request<C>>,
    pass: Pass<C>,
)
    requires
        decodable(model, s),
        pass.stored(model, s),
    ensures
        ({
            let z = model.lengths();
            let n = s.len() as int;
            let nt = offset(s, n);
            let size = model.data_type.bytes();
            let new = longest_seq(s, n);
            let all = longest_att(s, n);
            &&& pass.x0.data_type == model.data_type
            &&& pass.x1.data_type == model.data_type
            &&& pass.x2.data_type == model.data_type
            &&& pass.qkv.data_type == model.data_type
            &&& pass.gate_up.data_type == model.data_type
            &&& pass.logits.data_type == model.data_type
            &&& pass.x0.shape@.len() == 2
            &&& pass.x0.shape@[0] == nt
            &&& pass.x0.shape@[1] == z.d
            &&& pass.x1.shape@ == pass.x0.shape@
            &&& pass.x2.shape@.len() == 3
            &&& pass.x2.shape@[0] == z.nkvh
            &&& pass.x2.shape@[1] == z.head_group * nt
            &&& pass.x2.shape@[2] == z.dh
            &&& pass.qkv.shape@.len() == 2
            &&& pass.qkv.shape@[0] == nt
            &&& pass.qkv.shape@[1] == z.d + 2 * z.dkv
            &&& pass.gate_up.shape@.len() == 2
            &&& pass.gate_up.shape@[0] == nt
            &&& pass.gate_up.shape@[1] == 2 * z.di
            &&& pass.logits.shape@.len() == 2
            &&& pass.logits.shape@[0] == decodes_from(s, 0)
            &&& pass.logits.shape@[1] == z.voc
            &&& pass.x0.bytes == nt * z.d * size
            &&& pass.x1.bytes == nt * z.d * size
            &&& pass.x2.bytes == z.nkvh * (z.head_group * nt) * z.dh * size
            &&& pass.qkv.bytes == nt * (z.d + 2 * z.dkv) * size
            &&& pass.gate_up.bytes == nt * (2 * z.di) * size
            &&& pass.logits.bytes == decodes_from(s, 0) * z.voc * size
            &&& pass.q_buf == z.nh * new * z.dh * size
            &&& pass.att_buf == z.nkvh * z.head_group * new * all * size
        }),
{
    let z = model.lengths();
    let l = layout_of(z, s);
    let dt = model.data_type;
    lemma_longest_fit(s, s.len() as int);
    law_decoding_within_tokens(s);
    law_table_in_numbers(dt, l.x[0], l.x[1]);
    law_table_in_numbers(dt, l.qkv[0], l.qkv[1]);
    law_table_in_numbers(dt, l.gate_up[0], l.gate_up[1]);
    law_table_in_numbers(dt, l.logits[0], l.logits[1]);
    law_block_in_numbers(dt, l.q_buf[0], l.q_buf[1], l.q_buf[2]);
    law_block_in_numbers(dt, l.x2[0], l.x2[1], l.x2[2]);
    law_stack_in_numbers(dt, l.att_buf[0], l.att_buf[1], l.att_buf[2], l.att_buf[3]);
}

proof fn lemma_longest_fit<C>(s: Seq<Request<C>>, n: int)
    requires
        0 <= n <= s.len(),
        forall|r: int| 0 <= r < n ==> (#[trigger] s[r]).measurable(),
    ensures
        longest_seq(s, n) <= udim::MAX,
        longest_att(s, n) <= udim::MAX,
    decreases n,
{
    if n > 0 {
        lemma_longest_fit(s, n - 1);
        assert(s[n - 1].measurable());
    }
}

/// A model takes exactly the batches that are not empty, whose requests keep a
/// cache for every layer, and for which all lengths and all numbers of elements,
/// multiplied from the outermost axis inwards, fit an axis and all numbers of
/// bytes a size.
pub proof fn law_decodable_in_numbers<C>(model: ModelConfig, s: Seq<Request<C>>)
    ensures
        decodable(model, s) <==> {
            let z = model.lengths();
            let n = s.len() as int;
            let nt = offset(s, n);
            let size = model.data_type.bytes();
            let new = longest_seq(s, n);
            let all = longest_att(s, n);
            let scores = z.nkvh * z.head_group * new * all;
            &&& n > 0
            &&& forall|r: int|
                0 <= r < n ==> (#[trigger] s[r]).cache@.len() >= model.num_hidden_layers
            &&& forall|r: int|
                0 <= r < n ==> (#[trigger] s[r]).pos + s[r].tokens() <= udim::MAX
            &&& nt <= udim::MAX
            &&& model.divisible()
            &&& z.d + 2 * z.dkv <= udim::MAX
            &&& 2 * z.di <= udim::MAX
            &&& z.head_group * nt <= udim::MAX
            &&& nt * z.d <= udim::MAX
            &&& nt * z.d * size <= usize::MAX
            &&& nt * (z.d + 2 * z.dkv) <= udim::MAX
            &&& nt * (z.d + 2 * z.dkv) * size <= usize::MAX
            &&& z.nh * new <= udim::MAX
            &&& z.nh * new * z.dh <= udim::MAX
            &&& z.nh * new * z.dh * size <= usize::MAX
            &&& z.nkvh * z.head_group <= udim::MAX
            &&& z.nkvh * z.head_group * new <= udim::MAX
            &&& scores <= udim::MAX
            &&& scores * size <= usize::MAX
            &&& z.nkvh * (z.head_group * nt) <= udim::MAX
            &&& z.nkvh * (z.head_group * nt) * z.dh <= udim::MAX
            &&& z.nkvh * (z.head_group * nt) * z.dh * size <= usize::MAX
            &&& nt * (2 * z.di) <= udim::MAX
            &&& nt * (2 * z.di) * size <= usize::MAX
            &&& decodes_from(s, 0) * z.voc <= udim::MAX
            &&& decodes_from(s, 0) * z.voc * size <= usize::MAX
        },
{
    let z = model.lengths();
    let l = layout_of(z, s);
    let dt = model.data_type;
    law_decoding_within_tokens(s);
    if forall|r: int| 0 <= r < s.len() ==> (#[trigger] s[r]).pos + s[r].tokens() <= udim::MAX {
        assert forall|r: int| 0 <= r < s.len() implies (#[trigger] s[r]).measurable() by {}
        lemma_longest_fit(s, s.len() as int);
    } else {
        let r = choose|r: int|
            0 <= r < s.len() && !((#[trigger] s[r]).pos + s[r].tokens() <= udim::MAX);
        assert(!s[r].measurable());
    }
    law_table_in_numbers(dt, l.x[0], l.x[1]);
    law_table_in_numbers(dt, l.qkv[0], l.qkv[1]);
    law_table_in_numbers(dt, l.gate_up[0], l.gate_up[1]);
    law_table_in_numbers(dt, l.logits[0], l.logits[1]);
    law_block_in_numbers(dt, l.q_buf[0], l.q_buf[1], l.q_buf[2]);
    law_block_in_numbers(dt, l.x2[0], l.x2[1], l.x2[2]);
    law_stack_in_numbers(dt, l.att_buf[0], l.att_buf[1], l.att_buf[2], l.att_buf[3]);
}

/// A batch in the order of its pass needs the storage that it needs in any
/// other, and can be taken where it can be taken in any other.
pub proof fn law_order_keeps_storage<C>(
    model: ModelConfig,
    before: Seq<Request<C>>,
    after: Seq<Request<C>>,
)
    requires
        put_decoding_first(before, after),
        after.to_multiset() == before.to_multiset(),
    ensures
        layout_of(model.lengths(), after) == layout_of(model.lengths(), before),
        decodable(model, after) <==> decodable(model, before),
{
    law_order_keeps_extent(before, after);
    law_order_keeps_extent(after, before);
    law_order_keeps_decoding(before, after);
}

proof fn lemma_alike_attention<C>(
    z: Sizes,
    a: Seq<Request<C>>,
    b: Seq<Request<C>>,
    layer: usize,
    r: int,
)
    requires
        all_alike(a, b),
        0 <= r <= a.len(),
    ensures
        attention_steps(z, a, layer, r) == attention_steps(z, b, layer, r),
    decreases r,
{
    law_caches_are_not_measured(a, b);
    if r > 0 {
        lemma_alike_attention(z, a, b, layer, r - 1);
        assert(alike(a[r - 1], b[r - 1]));
        assert(offset(a, r - 1) == offset(b, r - 1));
        assert(offset(a, a.len() as int) == offset(b, b.len() as int));
        assert(window_of(a, r - 1) == window_of(b, r - 1));
    }
}

proof fn lemma_alike_layers<C>(z: Sizes, a: Seq<Request<C>>, b: Seq<Request<C>>, n: int)
    requires
        all_alike(a, b),
    ensures
        layers_steps(z, a, n) == layers_steps(z, b, n),
    decreases n,
{
    if n > 0 {
        law_caches_are_not_measured(a, b);
        assert(offset(a, a.len() as int) == offset(b, b.len() as int));
        lemma_alike_layers(z, a, b, n - 1);
        lemma_alike_attention(z, a, b, (n - 1) as usize, a.len() as int);
    }
}

/// Batches that differ only in what their caches hold get the same kernel
/// calls, places and storage.
pub proof fn law_caches_do_not_plan<C>(
    model: ModelConfig,
    a: Seq<Request<C>>,
    b: Seq<Request<C>>,
)
    requires
        all_alike(a, b),
    ensures
        pass_steps(model, a) == pass_steps(model, b),
        places(a, a.len() as int) == places(b, b.len() as int),
        layout_of(model.lengths(), a) == layout_of(model.lengths(), b),
{
    law_caches_are_not_measured(a, b);
    assert(offset(a, a.len() as int) == offset(b, b.len() as int));
    lemma_alike_layers(model.lengths(), a, b, model.num_hidden_layers as int);
}

/// The result of a pass has a row for each decoding request, and row `i` of
/// what it is computed from is the only row of request `i`.
pub proof fn law_logits_rows<C>(
    model: ModelConfig,
    before: Seq<Request<C>>,
    after: Seq<Request<C>>,
    i: int,
)
    requires
        decodable(model, before),
        put_decoding_first(before, after),
        0 <= i < layout_of(model.lengths(), before).logits[0],
    ensures
        after[i].decodes(),
        after[i].tokens() == 1,
        offset(after, i) == i,
{
    law_decoding_in_front(before, after);
    law_decoding_rows_lead(before, after, i);
    law_decoding_within_tokens(before);
}

} // verus!

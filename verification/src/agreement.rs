//! The views that the kernel calls of a pass work on have shapes that agree.
use crate::expr::{
    left_of, room, shape_of, shape_of_name, Buffer, Dims, Expr, Lengths, Name, Range, Ranges,
};
use crate::model::{law_even_model_has_even_heads, ModelConfig, Sizes};
use crate::pass::{
    attend_steps, attention_steps, decodable, feed_forward_steps, gather_step, heads_of,
    layer_steps, layers_steps, layout_of, logits_steps, merge_step, mix_step, own_heads_of, pass_steps,
    project_steps, queries_of, scores_by_query_of, scores_dims, scores_of, stretch_of, weight_of,
    window_of, Step, Window,
};
use crate::request::{
    decodes_from, law_decoding_within_tokens, law_extent_is_tight, lemma_offset_monotone,
    longest_att, longest_seq, offset, Request,
};
use crate::shape::udim;
use crate::tensor::product;
use crate::transpose::{names_axes, permuted};
use vstd::prelude::*;

verus! {

/// The lengths of a pass over a batch, where every cache has room for
/// `cache_len` tokens.
pub open spec fn lengths_of<C>(model: ModelConfig, s: Seq<Request<C>>, cache_len: nat) -> Lengths {
    let n = s.len() as int;
    Lengths {
        sizes: model.lengths(),
        num_tokens: offset(s, n),
        max_seq_len: longest_seq(s, n),
        max_att_len: longest_att(s, n),
        num_decoding: decodes_from(s, 0),
        cache_len,
    }
}

/// The query heads share the width of a token evenly, and the key heads share
/// the query heads evenly.
pub open spec fn even_heads(z: Sizes) -> bool {
    z.nh * z.dh == z.d && z.nkvh * z.head_group == z.nh
}

/// Every cache has room for the tokens of its request.
pub open spec fn cached<C>(s: Seq<Request<C>>, cache_len: nat) -> bool {
    forall|r: int| 0 <= r < s.len() ==> (#[trigger] s[r]).pos + s[r].tokens() <= cache_len
}

/// The product of matrices of shapes `a` and `b` has shape `out`; with three
/// axes, one product for each place on the first.
pub open spec fn multiplies(out: Seq<nat>, a: Seq<nat>, b: Seq<nat>) -> bool {
    let n = out.len() as int;
    &&& n == 2 || n == 3
    &&& a.len() == n
    &&& b.len() == n
    &&& n == 3 ==> a[0] == out[0] && b[0] == out[0]
    &&& a[n - 2] == out[n - 2]
    &&& a[n - 1] == b[n - 2]
    &&& b[n - 1] == out[n - 1]
}

/// Every view of the call lies inside its tensor, and the shapes of the views
/// are such as the kernel takes together.
pub open spec fn conforms(at: Lengths, step: Step) -> bool {
    match step {
        Step::Gather { out, table } => match (shape_of(at, out), shape_of(at, table)) {
            (Some(o), Some(t)) => o.len() == 2 && t.len() == 2 && o[0] == at.num_tokens && o[1]
                == t[1],
            _ => false,
        },
        Step::RmsNorm { out, input, weight } => match (
            shape_of(at, out),
            shape_of(at, input),
            shape_of(at, weight),
        ) {
            (Some(o), Some(i), Some(w)) => o.len() == 2 && i == o && w == seq![o[1]],
            _ => false,
        },
        Step::RmsNormInplace { x, weight } => match (shape_of(at, x), shape_of(at, weight)) {
            (Some(x), Some(w)) => x.len() == 2 && w == seq![x[1]],
            _ => false,
        },
        Step::MatMul { out, accumulate: _, a, b, scale: _ } => match (
            shape_of(at, out),
            shape_of(at, a),
            shape_of(at, b),
        ) {
            (Some(o), Some(a), Some(b)) => multiplies(o, a, b),
            _ => false,
        },
        Step::RotaryEmbedding { x } => match shape_of(at, x) {
            Some(x) => x.len() == 3 && x[0] == at.num_tokens,
            None => false,
        },
        Step::Reform { from, to } => match (shape_of(at, from), shape_of(at, to)) {
            (Some(f), Some(t)) => f == t,
            _ => false,
        },
        Step::Softmax { x } => match shape_of(at, x) {
            Some(x) => x.len() == 3,
            None => false,
        },
        Step::Swiglu { gate, up } => match (shape_of(at, gate), shape_of(at, up)) {
            (Some(g), Some(u)) => g.len() == 2 && g == u,
            _ => false,
        },
    }
}

/// The call writes or merges the attention output of a request that does not
/// make up the whole batch: the output tensor is sized for the whole batch.
pub open spec fn shares_output<C>(z: Sizes, s: Seq<Request<C>>, step: Step) -> bool {
    exists|r: int, layer: usize|
        0 <= r < s.len() && (#[trigger] s[r]).tokens() != offset(s, s.len() as int) && (step
            == #[trigger] mix_step(z, layer, window_of(s, r)) || step == merge_step(
            z,
            window_of(s, r),
        ))
}

spec fn sound<C>(at: Lengths, s: Seq<Request<C>>, steps: Seq<Step>) -> bool {
    forall|k: int|
        0 <= k < steps.len() ==> conforms(at, #[trigger] steps[k]) || shares_output(
            at.sizes,
            s,
            steps[k],
        )
}

proof fn lemma_sound_joins<C>(at: Lengths, s: Seq<Request<C>>, a: Seq<Step>, b: Seq<Step>)
    requires
        sound(at, s, a),
        sound(at, s, b),
    ensures
        sound(at, s, a + b),
{
    let c = a + b;
    assert forall|k: int| 0 <= k < c.len() implies conforms(at, #[trigger] c[k]) || shares_output(
        at.sizes,
        s,
        c[k],
    ) by {
        if k < a.len() {
            assert(c[k] == a[k]);
        } else {
            assert(c[k] == b[k - a.len()]);
        }
    }
}

/// What the lemmas below take as given of the lengths of a pass.
spec fn regular(at: Lengths, nt: udim) -> bool {
    let z = at.sizes;
    &&& even_heads(z)
    &&& z.nkvh * z.dh == z.dkv
    &&& nt == at.num_tokens
}

/// What the lemmas below take as given of the window of a request.
spec fn contained(at: Lengths, w: Window) -> bool {
    &&& w.pos + w.seq_len == w.att_len
    &&& w.row + w.seq_len <= at.num_tokens
    &&& w.seq_len <= at.max_seq_len
    &&& w.att_len <= at.max_att_len
    &&& w.att_len <= at.cache_len
    &&& at.sizes.head_group * w.seq_len <= udim::MAX
}

proof fn lemma_weight_shape(at: Lengths, name: Name)
    requires
        shape_of_name(at, name).len() == 2,
    ensures
        ({
            let s = shape_of_name(at, name);
            shape_of(at, weight_of(name)) == Some(seq![s[1], s[0]])
        }),
{
    reveal_with_fuel(shape_of, 2);
    let s = shape_of_name(at, name);
    let axes = Dims::Two(1, 0).list();
    assert(names_axes(axes, 2));
    assert(permuted(axes, s) =~= seq![s[1], s[0]]);
}

proof fn lemma_heads_shape(at: Lengths, nt: udim, index: usize)
    requires
        regular(at, nt),
        index < 3,
    ensures
        shape_of(at, heads_of(at.sizes, nt, index)) == Some(
            seq![
                nt as nat,
                (if index == 0 {
                    at.sizes.nh
                } else {
                    at.sizes.nkvh
                }) as nat,
                at.sizes.dh as nat,
            ],
        ),
{
    reveal_with_fuel(shape_of, 3);
    let z = at.sizes;
    assert(nt * z.d == nt * z.nh * z.dh) by (nonlinear_arith)
        requires
            z.nh * z.dh == z.d,
    ;
    assert(nt * z.dkv == nt * z.nkvh * z.dh) by (nonlinear_arith)
        requires
            z.nkvh * z.dh == z.dkv,
    ;
}

proof fn lemma_stretch_shape(at: Lengths, of: Expr, from: udim, take: udim)
    requires
        shape_of(at, of) matches Some(s) && s.len() == 3 && from + take <= s[1],
    ensures
        shape_of(at, stretch_of(of, from, take)) == Some(
            seq![shape_of(at, of)->0[0], take as nat, shape_of(at, of)->0[2]],
        ),
{
    let s = shape_of(at, of)->0;
    let ranges = Ranges::Three(Range::All, Range::Span { from, take }, Range::All);
    assert(ranges.list().len() == 3);
    let kept = Seq::new(s.len(), |i: int| left_of(ranges.list()[i], s[i]));
    assert(kept =~= seq![s[0], take as nat, s[2]]);
}

proof fn lemma_swap_shape(at: Lengths, of: Expr)
    requires
        shape_of(at, of) matches Some(s) && s.len() == 3,
    ensures
        shape_of(at, Expr::Transpose(Box::new(of), Dims::Three(1, 0, 2))) == Some(
            seq![shape_of(at, of)->0[1], shape_of(at, of)->0[0], shape_of(at, of)->0[2]],
        ),
        shape_of(at, Expr::Transpose(Box::new(of), Dims::Three(0, 2, 1))) == Some(
            seq![shape_of(at, of)->0[0], shape_of(at, of)->0[2], shape_of(at, of)->0[1]],
        ),
{
    let s = shape_of(at, of)->0;
    let outer = Dims::Three(1, 0, 2).list();
    let inner = Dims::Three(0, 2, 1).list();
    assert(names_axes(outer, 3));
    assert(names_axes(inner, 3));
    assert(permuted(outer, s) =~= seq![s[1], s[0], s[2]]);
    assert(permuted(inner, s) =~= seq![s[0], s[2], s[1]]);
}

proof fn lemma_own_heads_shape(at: Lengths, nt: udim, w: Window, index: usize)
    requires
        regular(at, nt),
        contained(at, w),
        index < 3,
    ensures
        shape_of(at, own_heads_of(at.sizes, nt, w, index)) == Some(
            seq![
                (if index == 0 {
                    at.sizes.nh
                } else {
                    at.sizes.nkvh
                }) as nat,
                w.seq_len as nat,
                at.sizes.dh as nat,
            ],
        ),
{
    let heads = heads_of(at.sizes, nt, index);
    lemma_heads_shape(at, nt, index);
    lemma_swap_shape(at, heads);
    lemma_stretch_shape(
        at,
        Expr::Transpose(Box::new(heads), Dims::Three(1, 0, 2)),
        w.row,
        w.seq_len,
    );
}

proof fn lemma_buffers_suffice(at: Lengths, w: Window)
    requires
        regular(at, at.num_tokens as udim),
        contained(at, w),
    ensures
        shape_of(at, queries_of(at.sizes, w)) == Some(
            seq![at.sizes.nh as nat, w.seq_len as nat, at.sizes.dh as nat],
        ),
        shape_of(at, scores_of(at.sizes, w)) == Some(
            seq![
                at.sizes.nkvh as nat,
                (at.sizes.head_group * w.seq_len) as nat,
                w.att_len as nat,
            ],
        ),
        shape_of(at, scores_by_query_of(at.sizes, w)) == Some(
            seq![at.sizes.nh as nat, w.seq_len as nat, w.att_len as nat],
        ),
        shape_of(
            at,
            Expr::Reshape(Box::new(scores_by_query_of(at.sizes, w)), scores_dims(at.sizes, w)),
        ) == Some(
            seq![
                at.sizes.nkvh as nat,
                (at.sizes.head_group * w.seq_len) as nat,
                w.att_len as nat,
            ],
        ),
        shape_of(
            at,
            Expr::Reshape(
                Box::new(queries_of(at.sizes, w)),
                Dims::Three(
                    at.sizes.nkvh,
                    (at.sizes.head_group * w.seq_len) as udim,
                    at.sizes.dh,
                ),
            ),
        ) == Some(
            seq![
                at.sizes.nkvh as nat,
                (at.sizes.head_group * w.seq_len) as nat,
                at.sizes.dh as nat,
            ],
        ),
{
    reveal_with_fuel(shape_of, 3);
    let z = at.sizes;
    let (nh, nkvh, hg, dh) = (z.nh as int, z.nkvh as int, z.head_group as int, z.dh as int);
    let (n, a) = (w.seq_len as int, w.att_len as int);
    let (max_n, max_a) = (at.max_seq_len as int, at.max_att_len as int);
    assert(nh * n * dh <= nh * max_n * dh) by (nonlinear_arith)
        requires
            0 <= n <= max_n,
            0 <= nh,
            0 <= dh,
    ;
    assert(nkvh * (hg * n) * a == nkvh * hg * n * a) by (nonlinear_arith);
    assert(nkvh * hg * n * a <= nkvh * hg * max_n * max_a) by {
        assert(nkvh * hg == nh);
        assert(nh * n <= nh * max_n) by (nonlinear_arith)
            requires
                0 <= n <= max_n,
                0 <= nh,
        ;
        assert(0 <= nh * n) by (nonlinear_arith)
            requires
                0 <= n,
                0 <= nh,
        ;
        assert((nh * n) * a <= (nh * max_n) * max_a) by (nonlinear_arith)
            requires
                0 <= nh * n <= nh * max_n,
                0 <= a <= max_a,
        ;
    }
    assert(nh * n * dh == nkvh * (hg * n) * dh) by (nonlinear_arith)
        requires
            nkvh * hg == nh,
    ;
    assert(nkvh * (hg * n) * a == nh * n * a) by (nonlinear_arith)
        requires
            nkvh * hg == nh,
    ;
}

proof fn lemma_output_shapes(at: Lengths, w: Window)
    requires
        regular(at, w.seq_len),
        contained(at, w),
    ensures
        conforms(at, merge_step(at.sizes, w)),
{
    reveal_with_fuel(shape_of, 2);
    let z = at.sizes;
    let (nh, nkvh, hg, dh, d, n) = (
        z.nh as int,
        z.nkvh as int,
        z.head_group as int,
        z.dh as int,
        z.d as int,
        w.seq_len as int,
    );
    assert(nkvh * (hg * n) * dh == nh * n * dh) by (nonlinear_arith)
        requires
            nkvh * hg == nh,
    ;
    assert(n * d == n * nh * dh) by (nonlinear_arith)
        requires
            nh * dh == d,
    ;
    let x2 = Expr::Reshape(Box::new(Expr::Whole(Name::X2)), Dims::Three(z.nh, w.seq_len, z.dh));
    assert(shape_of(at, x2) == Some(seq![z.nh as nat, w.seq_len as nat, z.dh as nat]));
    lemma_swap_shape(at, x2);
}

proof fn lemma_attend_sound<C>(
    at: Lengths,
    s: Seq<Request<C>>,
    nt: udim,
    layer: usize,
    r: int,
)
    requires
        regular(at, nt),
        0 <= r < s.len(),
        nt == offset(s, s.len() as int),
        s[r].tokens() <= udim::MAX,
        contained(at, window_of(s, r)),
    ensures
        sound(at, s, attend_steps(at.sizes, nt, layer, window_of(s, r))),
{
    let z = at.sizes;
    let w = window_of(s, r);
    let steps = attend_steps(z, nt, layer, w);
    let keys = Expr::Whole(Name::KeyCache { request: w.request, layer });
    let values = Expr::Whole(Name::ValueCache { request: w.request, layer });
    assert(shape_of(at, keys) == Some(seq![z.nkvh as nat, at.cache_len, z.dh as nat]));
    assert(shape_of(at, values) == Some(seq![z.nkvh as nat, at.cache_len, z.dh as nat]));
    lemma_own_heads_shape(at, nt, w, 0);
    lemma_own_heads_shape(at, nt, w, 1);
    lemma_own_heads_shape(at, nt, w, 2);
    lemma_stretch_shape(at, keys, w.pos, w.seq_len);
    lemma_stretch_shape(at, values, w.pos, w.seq_len);
    lemma_stretch_shape(at, keys, 0, w.att_len);
    lemma_stretch_shape(at, values, 0, w.att_len);
    lemma_swap_shape(at, stretch_of(keys, 0, w.att_len));
    lemma_buffers_suffice(at, w);
    assert(conforms(at, steps[0]));
    assert(conforms(at, steps[1]));
    assert(conforms(at, steps[2]));
    assert(conforms(at, steps[3]));
    assert(conforms(at, steps[4]));
    if w.seq_len == nt {
        lemma_output_shapes(at, w);
        assert(conforms(at, steps[5]));
        assert(conforms(at, steps[6]));
    } else {
        assert(s[r].tokens() != offset(s, s.len() as int));
        assert(steps[5] == mix_step(z, layer, window_of(s, r)));
        assert(steps[6] == merge_step(z, window_of(s, r)));
        assert(shares_output(z, s, steps[5]));
        assert(shares_output(z, s, steps[6]));
    }
}

proof fn lemma_project_sound<C>(at: Lengths, s: Seq<Request<C>>, nt: udim, layer: usize)
    requires
        regular(at, nt),
    ensures
        sound(at, s, project_steps(at.sizes, nt, layer)),
{
    let steps = project_steps(at.sizes, nt, layer);
    lemma_weight_shape(at, Name::WQkv(layer));
    lemma_heads_shape(at, nt, 0);
    lemma_heads_shape(at, nt, 1);
    assert(conforms(at, steps[0]));
    assert(conforms(at, steps[1]));
    assert(conforms(at, steps[2]));
    assert(conforms(at, steps[3]));
}

proof fn lemma_feed_forward_sound<C>(at: Lengths, s: Seq<Request<C>>, layer: usize)
    ensures
        sound(at, s, feed_forward_steps(at.sizes, layer)),
{
    reveal_with_fuel(shape_of, 2);
    let steps = feed_forward_steps(at.sizes, layer);
    lemma_weight_shape(at, Name::SelfAttnOProj(layer));
    lemma_weight_shape(at, Name::MlpGateUp(layer));
    lemma_weight_shape(at, Name::MlpDown(layer));
    assert(conforms(at, steps[0]));
    assert(conforms(at, steps[1]));
    assert(conforms(at, steps[2]));
    assert(conforms(at, steps[3]));
    assert(conforms(at, steps[4]));
}

proof fn lemma_logits_sound<C>(at: Lengths, s: Seq<Request<C>>, batch: udim)
    requires
        batch == at.num_decoding <= at.num_tokens,
    ensures
        sound(at, s, logits_steps(batch)),
{
    if batch > 0 {
        reveal_with_fuel(shape_of, 2);
        let steps = logits_steps(batch);
        lemma_weight_shape(at, Name::LmHead);
        let shape = seq![at.num_tokens, at.sizes.d as nat];
        let ranges = Ranges::Two(Range::Span { from: 0, take: batch }, Range::All);
        assert(ranges.list().len() == 2);
        let kept = Seq::new(2, |i: int| left_of(ranges.list()[i], shape[i]));
        assert(kept =~= seq![batch as nat, at.sizes.d as nat]);
        assert(conforms(at, steps[0]));
        assert(conforms(at, steps[1]));
    }
}

proof fn lemma_window_contained<C>(
    model: ModelConfig,
    s: Seq<Request<C>>,
    cache_len: nat,
    r: int,
)
    requires
        decodable(model, s),
        cached(s, cache_len),
        0 <= r < s.len(),
    ensures
        contained(lengths_of(model, s, cache_len), window_of(s, r)),
{
    let z = model.lengths();
    let n = s.len() as int;
    assert(s[r].measurable());
    lemma_offset_monotone(s, r + 1, n);
    law_extent_is_tight(s, n);
    assert(z.head_group * s[r].tokens() <= z.head_group * offset(s, n)) by (nonlinear_arith)
        requires
            s[r].tokens() <= offset(s, n),
            0 <= z.head_group,
    ;
}

proof fn lemma_attention_sound<C>(
    model: ModelConfig,
    s: Seq<Request<C>>,
    cache_len: nat,
    layer: usize,
    r: int,
)
    requires
        decodable(model, s),
        even_heads(model.lengths()),
        cached(s, cache_len),
        0 <= r <= s.len(),
    ensures
        sound(
            lengths_of(model, s, cache_len),
            s,
            attention_steps(model.lengths(), s, layer, r),
        ),
    decreases r,
{
    if r > 0 {
        let at = lengths_of(model, s, cache_len);
        let nt = offset(s, s.len() as int) as udim;
        lemma_attention_sound(model, s, cache_len, layer, r - 1);
        assert(s[r - 1].measurable());
        lemma_window_contained(model, s, cache_len, r - 1);
        lemma_attend_sound(at, s, nt, layer, r - 1);
        lemma_sound_joins(
            at,
            s,
            attention_steps(model.lengths(), s, layer, r - 1),
            attend_steps(model.lengths(), nt, layer, window_of(s, r - 1)),
        );
    }
}

proof fn lemma_layers_sound<C>(
    model: ModelConfig,
    s: Seq<Request<C>>,
    cache_len: nat,
    n: int,
)
    requires
        decodable(model, s),
        even_heads(model.lengths()),
        cached(s, cache_len),
        0 <= n,
    ensures
        sound(lengths_of(model, s, cache_len), s, layers_steps(model.lengths(), s, n)),
    decreases n,
{
    if n > 0 {
        let at = lengths_of(model, s, cache_len);
        let z = model.lengths();
        let nt = offset(s, s.len() as int) as udim;
        let layer = (n - 1) as usize;
        let project = project_steps(z, nt, layer);
        let attention = attention_steps(z, s, layer, s.len() as int);
        lemma_layers_sound(model, s, cache_len, n - 1);
        lemma_project_sound(at, s, nt, layer);
        lemma_attention_sound(model, s, cache_len, layer, s.len() as int);
        lemma_feed_forward_sound(at, s, layer);
        lemma_sound_joins(at, s, project, attention);
        lemma_sound_joins(at, s, project + attention, feed_forward_steps(z, layer));
        lemma_sound_joins(at, s, layers_steps(z, s, n - 1), layer_steps(z, s, layer));
    }
}

/// Where the heads divide evenly and the caches have room, every view of a
/// kernel call of the pass lies inside its tensor or buffer, and the shapes
/// that a kernel gets agree. The only calls this does not hold of are the two
/// that move the attention output of a request that shares the batch with
/// other tokens.
pub proof fn law_operands_agree<C>(
    model: ModelConfig,
    s: Seq<Request<C>>,
    cache_len: nat,
    k: int,
)
    requires
        decodable(model, s),
        even_heads(model.lengths()),
        cached(s, cache_len),
        0 <= k < pass_steps(model, s).len(),
    ensures
        conforms(lengths_of(model, s, cache_len), pass_steps(model, s)[k]) || shares_output(
            model.lengths(),
            s,
            pass_steps(model, s)[k],
        ),
{
    let at = lengths_of(model, s, cache_len);
    let z = model.lengths();
    let batch = decodes_from(s, 0) as udim;
    let first = seq![gather_step()];
    let layers = layers_steps(z, s, model.num_hidden_layers as int);
    assert(sound(at, s, first)) by {
        assert(conforms(at, first[0]));
    }
    lemma_layers_sound(model, s, cache_len, model.num_hidden_layers as int);
    law_decoding_within_tokens(s);
    lemma_logits_sound(at, s, batch);
    lemma_sound_joins(at, s, first, layers);
    lemma_sound_joins(at, s, first + layers, logits_steps(batch));
}

/// A list of lengths as a shape.
pub open spec fn as_shape(dims: Seq<udim>) -> Seq<nat> {
    Seq::new(dims.len(), |i: int| dims[i] as nat)
}

/// The tensors that a pass stores have the shapes that its views are taken of,
/// and its buffers have the room that its views are laid over.
pub proof fn law_storage_is_viewed<C>(model: ModelConfig, s: Seq<Request<C>>, cache_len: nat)
    requires
        decodable(model, s),
    ensures
        ({
            let at = lengths_of(model, s, cache_len);
            let l = layout_of(model.lengths(), s);
            &&& as_shape(l.x) == shape_of_name(at, Name::X0)
            &&& as_shape(l.x) == shape_of_name(at, Name::X1)
            &&& as_shape(l.x2) == shape_of_name(at, Name::X2)
            &&& as_shape(l.qkv) == shape_of_name(at, Name::Qkv)
            &&& as_shape(l.gate_up) == shape_of_name(at, Name::GateUp)
            &&& as_shape(l.logits) == shape_of_name(at, Name::Logits)
            &&& product(l.q_buf) == room(at, Buffer::Query)
            &&& product(l.att_buf) == room(at, Buffer::Attention)
        }),
{
    let at = lengths_of(model, s, cache_len);
    let z = model.lengths();
    let l = layout_of(z, s);
    let n = s.len() as int;
    law_decoding_within_tokens(s);
    law_extent_is_tight(s, n);
    let a = choose|r: int| 0 <= r < n && (#[trigger] s[r]).tokens() == longest_seq(s, n);
    let b = choose|r: int| 0 <= r < n && (#[trigger] s[r]).pos + s[r].tokens() == longest_att(s, n);
    assert(s[a].measurable() && s[b].measurable());
    assert(as_shape(l.x) =~= shape_of_name(at, Name::X0));
    assert(as_shape(l.x2) =~= shape_of_name(at, Name::X2));
    assert(as_shape(l.qkv) =~= shape_of_name(at, Name::Qkv));
    assert(as_shape(l.gate_up) =~= shape_of_name(at, Name::GateUp));
    assert(as_shape(l.logits) =~= shape_of_name(at, Name::Logits));
    lemma_product_three(z.nh, l.q_buf[1], z.dh);
    lemma_product_three(z.nkvh, z.head_group, l.att_buf[2]);
    lemma_product_push(seq![z.nkvh, z.head_group, l.att_buf[2]], l.att_buf[3]);
    assert(l.att_buf =~= seq![z.nkvh, z.head_group, l.att_buf[2]].push(l.att_buf[3]));
}

/// In every model whose width is a multiple of the number of query heads and
/// whose query heads are a multiple of the key heads, the heads divide evenly, so
/// that the operands of the calls agree but for the two that move the attention
/// output of a request that shares the batch with other tokens.
pub proof fn law_operands_agree_in_even_models<C>(
    model: ModelConfig,
    s: Seq<Request<C>>,
    cache_len: nat,
    k: int,
)
    requires
        decodable(model, s),
        cached(s, cache_len),
        0 < model.num_attention_heads <= udim::MAX,
        0 < model.num_key_value_heads,
        model.hidden_size <= udim::MAX,
        model.hidden_size % model.num_attention_heads == 0,
        model.num_attention_heads % model.num_key_value_heads == 0,
        0 <= k < pass_steps(model, s).len(),
    ensures
        even_heads(model.lengths()),
        conforms(lengths_of(model, s, cache_len), pass_steps(model, s)[k]) || shares_output(
            model.lengths(),
            s,
            pass_steps(model, s)[k],
        ),
{
    let d = model.hidden_size as int;
    let nh = model.num_attention_heads as int;
    let nkvh = model.num_key_value_heads as int;
    vstd::arithmetic::div_mod::lemma_fundamental_div_mod(d, nh);
    vstd::arithmetic::div_mod::lemma_fundamental_div_mod(nh, nkvh);
    law_even_model_has_even_heads(model, d / nh, nh / nkvh);
    law_operands_agree(model, s, cache_len, k);
}

proof fn lemma_product_push(dims: Seq<udim>, last: udim)
    ensures
        product(dims.push(last)) == product(dims) * last as nat,
{
    assert(dims.push(last).drop_last() =~= dims);
}

proof fn lemma_product_three(a: udim, b: udim, c: udim)
    ensures
        product(seq![a, b, c]) == a as nat * b as nat * c as nat,
{
    let none = Seq::<udim>::empty();
    lemma_product_push(none, a);
    lemma_product_push(none.push(a), b);
    lemma_product_push(none.push(a).push(b), c);
    assert(none.push(a).push(b).push(c) =~= seq![a, b, c]);
    let p = product(none) as int;
    assert(p * a * b * c == a * b * c) by (nonlinear_arith)
        requires
            p == 1,
    ;
}

/// The attention output by head holds the tokens in the order that splitting
/// their width into heads and moving the heads outwards gives: tokens by width,
/// tokens by key head, group and head width, key head by group, token and head
/// width, and with group and token as one axis the shape of the output.
pub proof fn law_output_is_by_head(at: Lengths)
    requires
        even_heads(at.sizes),
    ensures
        ({
            let z = at.sizes;
            let rows = shape_of_name(at, Name::X0);
            let split = seq![at.num_tokens, z.nkvh as nat, z.head_group as nat, z.dh as nat];
            let by_head = permuted(seq![1u32, 2, 0, 3], split);
            &&& rows[0] * rows[1] == split[0] * (split[1] * split[2] * split[3])
            &&& by_head == seq![z.nkvh as nat, z.head_group as nat, at.num_tokens, z.dh as nat]
            &&& shape_of_name(at, Name::X2) == seq![by_head[0], by_head[1] * by_head[2], by_head[3]]
        }),
{
    let z = at.sizes;
    let split = seq![at.num_tokens, z.nkvh as nat, z.head_group as nat, z.dh as nat];
    assert(permuted(seq![1u32, 2, 0, 3], split) =~= seq![
        z.nkvh as nat,
        z.head_group as nat,
        at.num_tokens,
        z.dh as nat,
    ]);
}

/// A batch of one request gets a pass in which every kernel call conforms.
pub proof fn law_single_request_conforms<C>(
    model: ModelConfig,
    s: Seq<Request<C>>,
    cache_len: nat,
    k: int,
)
    requires
        decodable(model, s),
        even_heads(model.lengths()),
        cached(s, cache_len),
        s.len() == 1,
        0 <= k < pass_steps(model, s).len(),
    ensures
        conforms(lengths_of(model, s, cache_len), pass_steps(model, s)[k]),
{
    law_operands_agree(model, s, cache_len, k);
    assert(offset(s, 1) == offset(s, 0) + s[0].tokens());
    assert(offset(s, 0) == 0);
}

} // verus!

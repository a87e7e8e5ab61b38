//! The model that a transformer runs.
use crate::data_type::DataType;
use crate::shape::udim;
use vstd::prelude::*;

verus! {

/// The numbers that describe a Llama model.
#[derive(Clone, Copy, Debug)]
pub struct ModelConfig {
    /// The type of the weights.
    pub data_type: DataType,
    /// Number of layers.
    pub num_hidden_layers: usize,
    /// Width of a token.
    pub hidden_size: usize,
    /// Width of a token inside the feed-forward part.
    pub intermediate_size: usize,
    /// Number of query heads.
    pub num_attention_heads: usize,
    /// Number of key and value heads.
    pub num_key_value_heads: usize,
    /// Number of tokens of the vocabulary.
    pub vocab_size: usize,
    /// Number of tokens that a text can have.
    pub max_position_embeddings: usize,
}

/// The axis lengths that a pass works with.
#[derive(Clone, Copy, Debug, PartialEq, Eq, Structural)]
pub struct Sizes {
    /// Width of a token.
    pub d: udim,
    /// Number of query heads.
    pub nh: udim,
    /// Number of key and value heads.
    pub nkvh: udim,
    /// Width of a head.
    pub dh: udim,
    /// Width of all key heads, and of all value heads.
    pub dkv: udim,
    /// Number of query heads that share a key and value head.
    pub head_group: udim,
    /// Width of a token inside the feed-forward part.
    pub di: udim,
    /// Number of tokens of the vocabulary.
    pub voc: udim,
}

impl ModelConfig {
    /// There are heads of both kinds, and the widths fit an axis.
    pub open spec fn divisible(&self) -> bool {
        let nh = self.num_attention_heads as udim;
        let nkvh = self.num_key_value_heads as udim;
        &&& nh != 0
        &&& nkvh != 0
        &&& nkvh * (self.hidden_size as udim / nh) <= udim::MAX
    }

    /// The axis lengths: the model's numbers as axis lengths, the width of a
    /// head as the share of a query head in the width of a token, and the group
    /// as the share of a key head in the query heads.
    pub open spec fn lengths(&self) -> Sizes {
        let d = self.hidden_size as udim;
        let nh = self.num_attention_heads as udim;
        let nkvh = self.num_key_value_heads as udim;
        let dh = d / nh;
        Sizes {
            d,
            nh,
            nkvh,
            dh,
            dkv: (nkvh * dh) as udim,
            head_group: nh / nkvh,
            di: self.intermediate_size as udim,
            voc: self.vocab_size as udim,
        }
    }

    /// The axis lengths of a pass, where there are any.
    pub fn sizes(&self) -> (sizes: Option<Sizes>)
        ensures
            sizes is Some <==> self.divisible(),
            sizes matches Some(z) ==> z == self.lengths(),
            sizes matches Some(z) ==> {
                &&& z.d == self.hidden_size as int % 0x1_0000_0000
                &&& z.nh == self.num_attention_heads as int % 0x1_0000_0000
                &&& z.nkvh == self.num_key_value_heads as int % 0x1_0000_0000
                &&& z.di == self.intermediate_size as int % 0x1_0000_0000
                &&& z.voc == self.vocab_size as int % 0x1_0000_0000
                &&& z.nh * z.dh <= z.d < z.nh * (z.dh + 1)
                &&& z.nkvh * z.head_group <= z.nh < z.nkvh * (z.head_group + 1)
                &&& z.dkv == z.nkvh * z.dh
            },
    {
        proof {
            if self.divisible() {
                law_lengths_share_the_width(*self);
            }
        }
        let d: udim = self.hidden_size as udim;
        let nh: udim = self.num_attention_heads as udim;
        let nkvh: udim = self.num_key_value_heads as udim;
        if nh == 0 || nkvh == 0 {
            return None;
        }
        let dh: udim = d / nh;
        match nkvh.checked_mul(dh) {
            Some(dkv) => Some(
                Sizes {
                    d,
                    nh,
                    nkvh,
                    dh,
                    dkv,
                    head_group: nh / nkvh,
                    di: self.intermediate_size as udim,
                    voc: self.vocab_size as udim,
                },
            ),
            None => None,
        }
    }
}

/// The type in which weights of the given type are computed with: `BF16` and
/// `F32` are cast to half precision, the others stay.
pub open spec fn computed_in(dt: DataType) -> DataType {
    match dt {
        DataType::BF16 | DataType::F32 => DataType::F16,
        _ => dt,
    }
}

/// A model that is ready to run.
pub struct Transformer(ModelConfig);

impl Transformer {
    /// The model as it runs.
    pub closed spec fn config(&self) -> ModelConfig {
        self.0
    }

    /// The weights are in a type that they are computed with.
    #[verifier::type_invariant]
    spec fn well_formed(&self) -> bool {
        computed_in(self.0.data_type) == self.0.data_type
    }

    /// Takes a model over, with its weights in the type that they are computed
    /// with.
    pub fn new(model: ModelConfig) -> (transformer: Transformer)
        ensures
            transformer.config() == (ModelConfig { data_type: computed_in(model.data_type), ..model }),
            model.data_type is BF16 || model.data_type is F32
                ==> transformer.config().data_type is F16,
            model.data_type is F16 || model.data_type is U32 ==> transformer.config().data_type
                == model.data_type,
            transformer.config().num_hidden_layers == model.num_hidden_layers,
            transformer.config().hidden_size == model.hidden_size,
            transformer.config().intermediate_size == model.intermediate_size,
            transformer.config().num_attention_heads == model.num_attention_heads,
            transformer.config().num_key_value_heads == model.num_key_value_heads,
            transformer.config().vocab_size == model.vocab_size,
            transformer.config().max_position_embeddings == model.max_position_embeddings,
    {
        let data_type: DataType = match model.data_type {
            DataType::BF16 | DataType::F32 => DataType::F16,
            other => other,
        };
        Transformer(ModelConfig { data_type, ..model })
    }

    /// The model as it runs.
    pub fn model(&self) -> (model: &ModelConfig)
        ensures
            *model == self.config(),
            !(model.data_type is BF16),
            !(model.data_type is F32),
    {
        proof {
            use_type_invariant(self);
        }
        &self.0
    }

    /// Number of tokens that a text can have.
    pub fn max_seq_len(&self) -> (len: usize)
        ensures
            len == self.config().max_position_embeddings,
    {
        self.0.max_position_embeddings
    }
}

proof fn lemma_as_axis(n: usize)
    ensures
        n as udim == n as int % 0x1_0000_0000,
{
    let wide: u64 = n as u64;
    assert((n as u64) as u32 == n as u32) by (bit_vector);
    assert(wide as u32 == wide % 0x1_0000_0000u64) by (bit_vector);
}

/// The widths and counts are the model's own, as far as an axis length holds
/// them. The width of a head is the largest that all query heads have room for
/// in a token, and the group the largest that all key heads have room for among
/// the query heads.
pub proof fn law_lengths_share_the_width(model: ModelConfig)
    requires
        model.divisible(),
    ensures
        ({
            let z = model.lengths();
            &&& z.d == model.hidden_size as int % 0x1_0000_0000
            &&& z.nh == model.num_attention_heads as int % 0x1_0000_0000
            &&& z.nkvh == model.num_key_value_heads as int % 0x1_0000_0000
            &&& z.di == model.intermediate_size as int % 0x1_0000_0000
            &&& z.voc == model.vocab_size as int % 0x1_0000_0000
            &&& z.nh > 0
            &&& z.nkvh > 0
            &&& z.nh * z.dh <= z.d < z.nh * (z.dh + 1)
            &&& z.nkvh * z.head_group <= z.nh < z.nkvh * (z.head_group + 1)
            &&& z.dkv == z.nkvh * z.dh
        }),
{
    let z = model.lengths();
    lemma_as_axis(model.hidden_size);
    lemma_as_axis(model.num_attention_heads);
    lemma_as_axis(model.num_key_value_heads);
    lemma_as_axis(model.intermediate_size);
    lemma_as_axis(model.vocab_size);
    vstd::arithmetic::div_mod::lemma_fundamental_div_mod(z.d as int, z.nh as int);
    vstd::arithmetic::div_mod::lemma_fundamental_div_mod(z.nh as int, z.nkvh as int);
    vstd::arithmetic::div_mod::lemma_mod_bound(z.d as int, z.nh as int);
    vstd::arithmetic::div_mod::lemma_mod_bound(z.nh as int, z.nkvh as int);
    assert(z.nh * (z.dh + 1) == z.nh * z.dh + z.nh) by (nonlinear_arith);
    assert(z.nkvh * (z.head_group + 1) == z.nkvh * z.head_group + z.nkvh) by (nonlinear_arith);
}

/// Where the width of a token is a multiple of the number of query heads, that
/// number a multiple of the number of key heads, and all of them axis lengths,
/// the heads of a pass make up the whole width and the groups all query heads.
pub proof fn law_even_model_has_even_heads(model: ModelConfig, width: int, group: int)
    requires
        0 < model.num_key_value_heads,
        0 < model.num_attention_heads,
        model.hidden_size <= udim::MAX,
        model.num_attention_heads <= udim::MAX,
        model.hidden_size == model.num_attention_heads * width,
        model.num_attention_heads == model.num_key_value_heads * group,
    ensures
        model.divisible(),
        model.lengths().d == model.hidden_size,
        model.lengths().nh == model.num_attention_heads,
        model.lengths().nkvh == model.num_key_value_heads,
        model.lengths().dh == width,
        model.lengths().head_group == group,
        model.lengths().nh * model.lengths().dh == model.lengths().d,
        model.lengths().nkvh * model.lengths().head_group == model.lengths().nh,
        model.lengths().nkvh * model.lengths().dh == model.lengths().dkv,
{
    let d = model.hidden_size as int;
    let nh = model.num_attention_heads as int;
    let nkvh = model.num_key_value_heads as int;
    assert(0 < group) by (nonlinear_arith)
        requires
            nh == nkvh * group,
            0 < nh,
            0 < nkvh,
    ;
    assert(0 <= width) by (nonlinear_arith)
        requires
            d == nh * width,
            0 <= d,
            0 < nh,
    ;
    assert(nkvh <= nkvh * group) by (nonlinear_arith)
        requires
            0 < group,
            0 < nkvh,
    ;
    assert(nh * width == width * nh) by (nonlinear_arith);
    assert(nkvh * group == group * nkvh) by (nonlinear_arith);
    vstd::arithmetic::div_mod::lemma_fundamental_div_mod_converse(d, nh, width, 0);
    vstd::arithmetic::div_mod::lemma_fundamental_div_mod_converse(nh, nkvh, group, 0);
    assert(nkvh * width <= nh * width) by (nonlinear_arith)
        requires
            nkvh <= nh,
            0 <= width,
    ;
}

/// A model with key heads, and with no more of them than query heads, has axis
/// lengths.
pub proof fn law_grouped_model_has_lengths(model: ModelConfig)
    requires
        0 < model.num_key_value_heads <= model.num_attention_heads <= udim::MAX,
    ensures
        model.divisible(),
{
    let d = model.hidden_size as udim as int;
    let nh = model.num_attention_heads as int;
    let nkvh = model.num_key_value_heads as int;
    let dh = d / nh;
    vstd::arithmetic::div_mod::lemma_fundamental_div_mod(d, nh);
    vstd::arithmetic::div_mod::lemma_mod_bound(d, nh);
    vstd::arithmetic::div_mod::lemma_div_pos_is_pos(d, nh);
    assert(nkvh * dh <= nh * dh) by (nonlinear_arith)
        requires
            nkvh <= nh,
            0 <= dh,
    ;
}

/// A model without query heads, or without key heads, has no axis lengths, and
/// neither has one whose key heads are wider together than an axis.
pub proof fn law_headless_model_has_no_lengths(model: ModelConfig)
    ensures
        model.num_attention_heads == 0 || model.num_key_value_heads == 0 ==> !model.divisible(),
        model.divisible() ==> model.lengths().nkvh * model.lengths().dh <= udim::MAX,
        !model.divisible() ==> model.num_attention_heads as int % 0x1_0000_0000 == 0
            || model.num_key_value_heads as int % 0x1_0000_0000 == 0
            || model.lengths().nkvh * model.lengths().dh > udim::MAX,
{
    lemma_as_axis(model.num_attention_heads);
    lemma_as_axis(model.num_key_value_heads);
}

/// Weights in `BF16` and `F32` are computed with in `F16`, others as they are, so
/// that weights that are cast once need no further cast.
pub proof fn law_cast_once(dt: DataType)
    ensures
        computed_in(computed_in(dt)) == computed_in(dt),
        !(computed_in(dt) is BF16),
        !(computed_in(dt) is F32),
        dt is BF16 || dt is F32 ==> computed_in(dt) is F16,
        dt is F16 || dt is U32 ==> computed_in(dt) == dt,
{
}

} // verus!

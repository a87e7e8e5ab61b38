//! Views of the tensors of a pass.
use crate::model::Sizes;
use crate::shape::udim;
use crate::transpose::{names_axes, permuted};
use vstd::prelude::*;

verus! {

/// A list of two or three numbers, one for each axis.
#[derive(Clone, Copy, Debug, PartialEq, Eq, Structural)]
pub enum Dims {
    /// Two axes.
    Two(udim, udim),
    /// Three axes.
    Three(udim, udim, udim),
}

/// What a slice keeps of an axis.
#[derive(Clone, Copy, Debug, PartialEq, Eq, Structural)]
pub enum Range {
    /// The whole axis.
    All,
    /// `take` places from `from` on.
    Span {
        /// The first place.
        from: udim,
        /// Number of places.
        take: udim,
    },
}

/// A range for each axis.
#[derive(Clone, Copy, Debug, PartialEq, Eq, Structural)]
pub enum Ranges {
    /// Two axes.
    Two(Range, Range),
    /// Three axes.
    Three(Range, Range, Range),
}

/// A tensor of a pass.
#[derive(Clone, Copy, Debug, PartialEq, Eq, Structural)]
pub enum Name {
    /// The tokens between the parts of a layer.
    X0,
    /// The tokens inside a part of a layer.
    X1,
    /// The output of the attention, by head.
    X2,
    /// Queries, keys and values side by side.
    Qkv,
    /// The two branches of the feed-forward part side by side.
    GateUp,
    /// The result of the pass.
    Logits,
    /// The embedding of every token of the vocabulary.
    EmbedTokens,
    /// Scale of the norm before the attention of a layer.
    InputLayernorm(usize),
    /// Projection to queries, keys and values of a layer.
    WQkv(usize),
    /// Projection of the attention output of a layer.
    SelfAttnOProj(usize),
    /// Scale of the norm before the feed-forward part of a layer.
    PostAttentionLayernorm(usize),
    /// Projection to both feed-forward branches of a layer.
    MlpGateUp(usize),
    /// Projection out of the feed-forward part of a layer.
    MlpDown(usize),
    /// Scale of the norm after the layers.
    ModelNorm,
    /// Projection to the vocabulary.
    LmHead,
    /// The keys that a request keeps of a layer.
    KeyCache {
        /// The request, by its place in the batch.
        request: usize,
        /// The layer.
        layer: usize,
    },
    /// The values that a request keeps of a layer.
    ValueCache {
        /// The request, by its place in the batch.
        request: usize,
        /// The layer.
        layer: usize,
    },
}

/// Scratch storage without a shape of its own.
#[derive(Clone, Copy, Debug, PartialEq, Eq, Structural)]
pub enum Buffer {
    /// The queries of one request.
    Query,
    /// The attention scores of one request.
    Attention,
}

/// A view of a tensor.
#[derive(Debug, PartialEq, Eq)]
pub enum Expr {
    /// The tensor itself.
    Whole(Name),
    /// A contiguous tensor at the front of a buffer.
    Over(Buffer, Dims),
    /// One of the tensors that splitting the second axis gives.
    Part {
        /// What is split.
        of: Box<Expr>,
        /// The lengths of the pieces.
        lens: Dims,
        /// Which of the pieces.
        index: usize,
    },
    /// The same elements under another shape.
    Reshape(Box<Expr>, Dims),
    /// The same elements with the axes in another order.
    Transpose(Box<Expr>, Dims),
    /// A range of every axis.
    Slice(Box<Expr>, Ranges),
}

impl Dims {
    /// The numbers as a list.
    pub open spec fn list(self) -> Seq<udim> {
        match self {
            Dims::Two(a, b) => seq![a, b],
            Dims::Three(a, b, c) => seq![a, b, c],
        }
    }

    /// The numbers as lengths.
    pub open spec fn shape(self) -> Seq<nat> {
        match self {
            Dims::Two(a, b) => seq![a as nat, b as nat],
            Dims::Three(a, b, c) => seq![a as nat, b as nat, c as nat],
        }
    }

    /// The sum of the numbers.
    pub open spec fn sum(self) -> nat {
        match self {
            Dims::Two(a, b) => a as nat + b as nat,
            Dims::Three(a, b, c) => a as nat + b as nat + c as nat,
        }
    }
}

impl Ranges {
    /// The ranges as a list.
    pub open spec fn list(self) -> Seq<Range> {
        match self {
            Ranges::Two(a, b) => seq![a, b],
            Ranges::Three(a, b, c) => seq![a, b, c],
        }
    }
}

/// The range lies inside an axis.
pub open spec fn inside(range: Range, len: nat) -> bool {
    match range {
        Range::All => true,
        Range::Span { from, take } => from + take <= len,
    }
}

/// What the range leaves of the length of an axis.
pub open spec fn left_of(range: Range, len: nat) -> nat {
    match range {
        Range::All => len,
        Range::Span { from, take } => take as nat,
    }
}

/// Number of elements of a tensor of two or three axes.
pub open spec fn volume(shape: Seq<nat>) -> nat {
    if shape.len() == 2 {
        shape[0] * shape[1]
    } else {
        shape[0] * shape[1] * shape[2]
    }
}

/// The lengths of a pass that the shapes of its tensors follow from.
pub struct Lengths {
    /// The axis lengths of the model.
    pub sizes: Sizes,
    /// Number of the new tokens.
    pub num_tokens: nat,
    /// The largest number of new tokens of a request.
    pub max_seq_len: nat,
    /// The largest number of attended tokens of a request.
    pub max_att_len: nat,
    /// Number of the decoding requests.
    pub num_decoding: nat,
    /// Number of tokens that a cache has room for.
    pub cache_len: nat,
}

/// The shape of a tensor of a pass.
pub open spec fn shape_of_name(at: Lengths, name: Name) -> Seq<nat> {
    let z = at.sizes;
    let d = z.d as nat;
    match name {
        Name::X0 | Name::X1 => seq![at.num_tokens, d],
        Name::X2 => seq![z.nkvh as nat, z.head_group as nat * at.num_tokens, z.dh as nat],
        Name::Qkv => seq![at.num_tokens, (d + z.dkv + z.dkv) as nat],
        Name::GateUp => seq![at.num_tokens, (z.di + z.di) as nat],
        Name::Logits => seq![at.num_decoding, z.voc as nat],
        Name::EmbedTokens | Name::LmHead => seq![z.voc as nat, d],
        Name::InputLayernorm(_) | Name::PostAttentionLayernorm(_) | Name::ModelNorm => seq![d],
        Name::WQkv(_) => seq![(d + z.dkv + z.dkv) as nat, d],
        Name::SelfAttnOProj(_) => seq![d, d],
        Name::MlpGateUp(_) => seq![(z.di + z.di) as nat, d],
        Name::MlpDown(_) => seq![d, z.di as nat],
        Name::KeyCache { .. } | Name::ValueCache { .. } => seq![
            z.nkvh as nat,
            at.cache_len,
            z.dh as nat,
        ],
    }
}

/// Number of elements that a buffer has room for.
pub open spec fn room(at: Lengths, buffer: Buffer) -> nat {
    let z = at.sizes;
    match buffer {
        Buffer::Query => z.nh as nat * at.max_seq_len * z.dh as nat,
        Buffer::Attention => z.nkvh as nat * z.head_group as nat * at.max_seq_len * at.max_att_len,
    }
}

/// The shape of a view, or `None` where the view reaches outside of what it is
/// taken of.
pub open spec fn shape_of(at: Lengths, expr: Expr) -> Option<Seq<nat>>
    decreases expr,
{
    match expr {
        Expr::Whole(name) => Some(shape_of_name(at, name)),
        Expr::Over(buffer, dims) => if volume(dims.shape()) <= room(at, buffer) {
            Some(dims.shape())
        } else {
            None
        },
        Expr::Part { of, lens, index } => match shape_of(at, *of) {
            Some(s) => if s.len() == 2 && index < lens.list().len() && lens.sum() == s[1] {
                Some(seq![s[0], lens.shape()[index as int]])
            } else {
                None
            },
            None => None,
        },
        Expr::Reshape(of, dims) => match shape_of(at, *of) {
            Some(s) => if volume(s) == volume(dims.shape()) {
                Some(dims.shape())
            } else {
                None
            },
            None => None,
        },
        Expr::Transpose(of, axes) => match shape_of(at, *of) {
            Some(s) => if axes.list().len() == s.len() && names_axes(axes.list(), s.len()) {
                Some(permuted(axes.list(), s))
            } else {
                None
            },
            None => None,
        },
        Expr::Slice(of, ranges) => match shape_of(at, *of) {
            Some(s) => if ranges.list().len() == s.len() && forall|i: int|
                0 <= i < s.len() ==> inside(#[trigger] ranges.list()[i], s[i]) {
                Some(Seq::new(s.len(), |i: int| left_of(ranges.list()[i], s[i])))
            } else {
                None
            },
            None => None,
        },
    }
}

} // verus!

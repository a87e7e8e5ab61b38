//! Shape operators and batch scheduling of a Llama-style transformer on the CPU.
//!
//! The crate decides what a decoding pass does: in which order the requests of
//! a batch stand, how large every buffer is, and which kernel runs on which
//! view of which tensor. The kernels themselves, the weights and the storage
//! belong to the program around it.
pub mod affine;
pub mod agreement;
pub mod calls;
pub mod data_type;
pub mod expr;
pub mod model;
pub mod operator;
pub mod pass;
pub mod reads;
pub mod request;
pub mod row;
pub mod run;
pub mod shape;
pub mod tensor;
pub mod transpose;
pub mod writes;

pub use crate::affine::Affine;
pub use crate::data_type::DataType;
pub use crate::model::{ModelConfig, Transformer};
pub use crate::operator::{Operator, Parts};
pub use crate::pass::{Pass, Step};
pub use crate::request::{Prompt, Request};
pub use crate::shape::{idim, udim, Shape};
pub use crate::tensor::{tensor, Tensor};
pub use crate::transpose::Transpose;

//! Verified core of a small neural-network library: the tensor type and its
//! data-movement operations, the deterministic SplitMix64 generator,
//! parameter identities, the autodiff tape and the gradient store, the native checkpoint
//! format (manifest writer and parser, loader), the decisions of the
//! browser-widget MLP, the GPU backend's note on its adapter, and the text
//! of the benchmark harness (command line, JSON escaping, machine object and
//! report document).

pub mod adapter;
pub mod autograd;
pub mod bench;
pub mod bridge;
pub mod checkpoint;
pub mod layers;
pub mod rng;
pub mod tensor;

pub use crate::autograd::{GradStore, Op, ParamId, ParamIdCounter, Tape, TapeNode};
pub use crate::layers::{CrossEntropy, Gelu, Mse, PrintEpochLoss, Relu, Sigmoid, Tanh};
pub use crate::rng::SplitMix64;
pub use crate::tensor::{NodeId, Tensor};

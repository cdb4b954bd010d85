//! The parameter-free layers and losses, and the helpers that name and
//! size parameters.
use vstd::prelude::*;
use vstd::string::StringExecFns;

verus! {

/// `max(x, 0)` activation.
#[derive(Debug, Clone, Copy, Default)]
pub struct Relu;

/// Logistic activation.
#[derive(Debug, Clone, Copy, Default)]
pub struct Sigmoid;

/// Hyperbolic-tangent activation.
#[derive(Debug, Clone, Copy, Default)]
pub struct Tanh;

/// GELU activation (tanh approximation).
#[derive(Debug, Clone, Copy, Default)]
pub struct Gelu;

/// Mean squared error loss.
#[derive(Debug, Clone, Copy, Default)]
pub struct Mse;

/// Fused softmax + cross-entropy loss.
#[derive(Debug, Clone, Copy, Default)]
pub struct CrossEntropy;

/// Callback that prints one line per epoch.
#[derive(Debug, Default)]
pub struct PrintEpochLoss;

/// For a weight shape `[out, in]` returns `(fan_in, fan_out) = (in, out)`;
/// for a vector `[n]`, `(n, n)`. Only rank-1 and rank-2 shapes are supported.
pub fn fan(shape: &[usize]) -> (r: (usize, usize))
    requires
        shape@.len() == 1 || shape@.len() == 2,
    ensures
        shape@.len() == 2 ==> r == (shape@[1], shape@[0]),
        shape@.len() == 1 ==> r == (shape@[0], shape@[0]),
{
    if shape.len() == 2 {
        (shape[1], shape[0])
    } else {
        (shape[0], shape[0])
    }
}

/// `"<prefix>.<path>"`, or just the prefix when `path` is empty (a leaf
/// visited at the prefix itself).
pub fn join_path(prefix: &str, path: &str) -> (r: String)
    ensures
        r@ == if path@.len() == 0 {
            prefix@
        } else {
            prefix@ + seq!['.'] + path@
        },
{
    if path.is_empty() {
        prefix.to_owned()
    } else {
        let mut s = prefix.to_owned();
        proof {
            reveal_strlit(".");
        }
        s.append(".");
        s.append(path);
        s
    }
}

} // verus!

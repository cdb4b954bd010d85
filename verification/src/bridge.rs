//! The decisions of the browser-widget MLP: which layers a list of layer
//! sizes builds, which loss, optimiser or activation a name selects, and
//! whether flat input and target buffers split into whole rows.
use vstd::prelude::*;

verus! {

/// One layer of the widget's network.
#[derive(Debug, Clone, Copy, PartialEq, Eq, Structural)]
pub enum LayerSpec {
    /// A fully connected layer `in_dim -> out_dim`.
    Linear { in_dim: usize, out_dim: usize },
    /// A ReLU activation.
    Relu,
}

/// The layers of an MLP with the given sizes and its input and output
/// widths.
#[derive(Debug)]
pub struct MlpPlan {
    pub layers: Vec<LayerSpec>,
    pub in_dim: usize,
    pub out_dim: usize,
}

/// The layers built for the size pair `(sizes[i], sizes[i + 1])`: the
/// linear map, followed by a ReLU unless it is the output layer.
pub open spec fn layer_block(sizes: Seq<u32>, i: int) -> Seq<LayerSpec> {
    let lin = LayerSpec::Linear { in_dim: sizes[i] as usize, out_dim: sizes[i + 1] as usize };
    if i + 2 < sizes.len() {
        seq![lin, LayerSpec::Relu]
    } else {
        seq![lin]
    }
}

/// The layers built for the first `k` size pairs.
pub open spec fn plan_upto(sizes: Seq<u32>, k: int) -> Seq<LayerSpec>
    decreases k,
{
    if k <= 0 {
        seq![]
    } else {
        plan_upto(sizes, k - 1) + layer_block(sizes, k - 1)
    }
}

/// All layers of the MLP with layer sizes `sizes` (input, hidden...,
/// output).
pub open spec fn mlp_layers(sizes: Seq<u32>) -> Seq<LayerSpec> {
    plan_upto(sizes, sizes.len() - 1)
}

/// The network for `layer_sizes = [input, hidden_1, ..., output]`: a
/// linear layer between each pair of neighbouring sizes, with a ReLU after
/// every one but the last. `None` when fewer than two sizes are given.
pub fn plan_mlp(layer_sizes: &[u32]) -> (r: Option<MlpPlan>)
    ensures
        r is None <==> layer_sizes@.len() < 2,
        r matches Some(p) ==> {
            &&& p.layers@ == mlp_layers(layer_sizes@)
            &&& p.in_dim == layer_sizes@[0]
            &&& p.out_dim == layer_sizes@[layer_sizes@.len() - 1]
        },
{
    let n = layer_sizes.len();
    if n < 2 {
        return None;
    }
    let mut layers: Vec<LayerSpec> = Vec::new();
    let mut i: usize = 0;
    while i + 1 < n
        invariant
            n == layer_sizes@.len(),
            n >= 2,
            i + 1 <= n,
            layers@ == plan_upto(layer_sizes@, i as int),
        decreases n - i,
    {
        let in_dim = layer_sizes[i] as usize;
        let out_dim = layer_sizes[i + 1] as usize;
        layers.push(LayerSpec::Linear { in_dim, out_dim });
        if i + 2 < n {
            layers.push(LayerSpec::Relu);
        }
        proof {
            assert(layers@ =~= plan_upto(layer_sizes@, i as int) + layer_block(
                layer_sizes@,
                i as int,
            ));
        }
        i = i + 1;
    }
    Some(MlpPlan { layers, in_dim: layer_sizes[0] as usize, out_dim: layer_sizes[n - 1] as usize })
}

/// The first `k` size pairs build `2k` layers (one fewer when the last of
/// them is the output pair), with the linear map of pair `j` at position
/// `2j` and a ReLU right after it for every hidden pair.
proof fn lemma_plan_upto(sizes: Seq<u32>, k: int)
    requires
        sizes.len() >= 2,
        0 <= k <= sizes.len() - 1,
    ensures
        plan_upto(sizes, k).len() == (if k == sizes.len() - 1 {
            2 * k - 1
        } else {
            2 * k
        }),
        forall|j: int|
            0 <= j < k ==> #[trigger] plan_upto(sizes, k)[2 * j] == (LayerSpec::Linear {
                in_dim: sizes[j] as usize,
                out_dim: sizes[j + 1] as usize,
            }),
        forall|j: int|
            0 <= j < k && j < sizes.len() - 2 ==> #[trigger] plan_upto(sizes, k)[2 * j + 1]
                == LayerSpec::Relu,
    decreases k,
{
    if k > 0 {
        lemma_plan_upto(sizes, k - 1);
        let prev = plan_upto(sizes, k - 1);
        assert(plan_upto(sizes, k) == prev + layer_block(sizes, k - 1));
        assert forall|j: int| 0 <= j < k implies #[trigger] plan_upto(sizes, k)[2 * j] == (
        LayerSpec::Linear { in_dim: sizes[j] as usize, out_dim: sizes[j + 1] as usize }) by {
            if j < k - 1 {
                assert(plan_upto(sizes, k)[2 * j] == prev[2 * j]);
            }
        }
        assert forall|j: int| 0 <= j < k && j < sizes.len() - 2 implies #[trigger] plan_upto(
            sizes,
            k,
        )[2 * j + 1] == LayerSpec::Relu by {
            if j < k - 1 {
                assert(plan_upto(sizes, k)[2 * j + 1] == prev[2 * j + 1]);
            }
        }
    }
}

/// The shape of every widget MLP: for `n >= 2` sizes it has `2n - 3`
/// layers; layer `2j` is the linear map from `sizes[j]` to `sizes[j + 1]`,
/// each hidden one followed by a ReLU, so neighbouring linear layers chain
/// (one's output width is the next one's input width) and the network
/// ends in the linear output layer, with no activation after it.
pub proof fn law_mlp_shape(sizes: Seq<u32>)
    requires
        sizes.len() >= 2,
    ensures
        mlp_layers(sizes).len() == 2 * sizes.len() - 3,
        forall|j: int|
            0 <= j < sizes.len() - 1 ==> #[trigger] mlp_layers(sizes)[2 * j] == (
            LayerSpec::Linear { in_dim: sizes[j] as usize, out_dim: sizes[j + 1] as usize }),
        forall|j: int|
            0 <= j < sizes.len() - 2 ==> #[trigger] mlp_layers(sizes)[2 * j + 1]
                == LayerSpec::Relu,
        mlp_layers(sizes).last() == (LayerSpec::Linear {
            in_dim: sizes[sizes.len() - 2] as usize,
            out_dim: sizes[sizes.len() - 1] as usize,
        }),
{
    lemma_plan_upto(sizes, sizes.len() - 1);
    let n = sizes.len() as int;
    assert(mlp_layers(sizes)[2 * (n - 2)] == (LayerSpec::Linear {
        in_dim: sizes[n - 2] as usize,
        out_dim: sizes[n - 1] as usize,
    }));
}

/// The losses a widget can switch to.
#[derive(Debug, Clone, Copy, PartialEq, Eq, Structural)]
pub enum LossKind {
    Mse,
    Huber,
    CrossEntropy,
}

/// The optimisers a widget can switch to.
#[derive(Debug, Clone, Copy, PartialEq, Eq, Structural)]
pub enum OptimKind {
    Sgd,
    Momentum,
    Adam,
    AdamW,
}

/// The activations a widget can put into a hidden slot.
#[derive(Debug, Clone, Copy, PartialEq, Eq, Structural)]
pub enum ActivationKind {
    Relu,
    Sigmoid,
    Tanh,
}

pub open spec fn spec_loss_kind(name: Seq<char>) -> Option<LossKind> {
    if name == "mse"@ {
        Some(LossKind::Mse)
    } else if name == "huber"@ {
        Some(LossKind::Huber)
    } else if name == "cross_entropy"@ {
        Some(LossKind::CrossEntropy)
    } else {
        None
    }
}

pub open spec fn spec_optim_kind(name: Seq<char>) -> Option<OptimKind> {
    if name == "sgd"@ {
        Some(OptimKind::Sgd)
    } else if name == "momentum"@ {
        Some(OptimKind::Momentum)
    } else if name == "adam"@ {
        Some(OptimKind::Adam)
    } else if name == "adamw"@ {
        Some(OptimKind::AdamW)
    } else {
        None
    }
}

pub open spec fn spec_activation_kind(name: Seq<char>) -> Option<ActivationKind> {
    if name == "relu"@ {
        Some(ActivationKind::Relu)
    } else if name == "sigmoid"@ {
        Some(ActivationKind::Sigmoid)
    } else if name == "tanh"@ {
        Some(ActivationKind::Tanh)
    } else {
        None
    }
}

/// Whether `name` spells `word`.
fn is_word(name: &String, word: &str) -> (r: bool)
    ensures
        r == (name@ == word@),
{
    *name == word.to_owned()
}

/// The loss named `"mse"`, `"huber"` or `"cross_entropy"`.
pub fn loss_kind(name: &str) -> (r: Option<LossKind>)
    ensures
        r == spec_loss_kind(name@),
{
    let s = name.to_owned();
    if is_word(&s, "mse") {
        Some(LossKind::Mse)
    } else if is_word(&s, "huber") {
        Some(LossKind::Huber)
    } else if is_word(&s, "cross_entropy") {
        Some(LossKind::CrossEntropy)
    } else {
        None
    }
}

/// The optimiser named `"sgd"`, `"momentum"`, `"adam"` or `"adamw"`.
pub fn optim_kind(name: &str) -> (r: Option<OptimKind>)
    ensures
        r == spec_optim_kind(name@),
{
    let s = name.to_owned();
    if is_word(&s, "sgd") {
        Some(OptimKind::Sgd)
    } else if is_word(&s, "momentum") {
        Some(OptimKind::Momentum)
    } else if is_word(&s, "adam") {
        Some(OptimKind::Adam)
    } else if is_word(&s, "adamw") {
        Some(OptimKind::AdamW)
    } else {
        None
    }
}

/// The activation named `"relu"`, `"sigmoid"` or `"tanh"`.
pub fn activation_kind(name: &str) -> (r: Option<ActivationKind>)
    ensures
        r == spec_activation_kind(name@),
{
    let s = name.to_owned();
    if is_word(&s, "relu") {
        Some(ActivationKind::Relu)
    } else if is_word(&s, "sigmoid") {
        Some(ActivationKind::Sigmoid)
    } else if is_word(&s, "tanh") {
        Some(ActivationKind::Tanh)
    } else {
        None
    }
}

/// Why flat buffers do not form a batch.
#[derive(Debug, Clone, Copy, PartialEq, Eq, Structural)]
pub enum BatchError {
    /// The input length is not a multiple of the input width.
    XNotDivisible,
    /// The target length is not `batch * out_dim`.
    YMismatch,
}

/// The number of rows in a flat input of `x_len` values of width
/// `in_dim`, or `XNotDivisible`.
pub fn batch_rows(x_len: usize, in_dim: usize) -> (r: Result<usize, BatchError>)
    requires
        in_dim > 0,
    ensures
        x_len % in_dim == 0 ==> r == Ok::<usize, BatchError>(x_len / in_dim),
        x_len % in_dim != 0 ==> r == Err::<usize, BatchError>(BatchError::XNotDivisible),
{
    let batch = x_len / in_dim;
    proof {
        vstd::arithmetic::div_mod::lemma_fundamental_div_mod(x_len as int, in_dim as int);
        assert(batch * in_dim <= x_len) by (nonlinear_arith)
            requires
                batch == x_len / in_dim,
                in_dim > 0,
        ;
    }
    if batch * in_dim != x_len {
        Err(BatchError::XNotDivisible)
    } else {
        Ok(batch)
    }
}

/// The number of rows of a training batch: the input must split into rows
/// of width `in_dim`, and the targets must hold `out_dim` values per row.
pub fn train_batch_rows(x_len: usize, y_len: usize, in_dim: usize, out_dim: usize) -> (r: Result<
    usize,
    BatchError,
>)
    requires
        in_dim > 0,
        (x_len / in_dim) * out_dim <= usize::MAX,
    ensures
        x_len % in_dim != 0 ==> r == Err::<usize, BatchError>(BatchError::XNotDivisible),
        x_len % in_dim == 0 && y_len != (x_len / in_dim) * out_dim ==> r == Err::<
            usize,
            BatchError,
        >(BatchError::YMismatch),
        x_len % in_dim == 0 && y_len == (x_len / in_dim) * out_dim ==> r == Ok::<usize, BatchError>(
            x_len / in_dim,
        ),
{
    let batch = match batch_rows(x_len, in_dim) {
        Ok(b) => b,
        Err(e) => return Err(e),
    };
    if y_len != batch * out_dim {
        return Err(BatchError::YMismatch);
    }
    Ok(batch)
}

} // verus!

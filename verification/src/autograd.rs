//! Reverse-mode autodiff bookkeeping: parameter ids, the Wengert tape of
//! recorded operations, and the store of gradients a backward pass yields.
use std::collections::HashMap;
use vstd::prelude::*;

use crate::tensor::{shape_product, NodeId, Tensor};

verus! {

/// Stable identity for a learnable parameter. Survives optimiser swaps, so
/// optimiser state keyed by it keeps working when the optimiser changes.
#[derive(Debug, Clone, Copy, PartialEq, Eq, Structural, Hash)]
pub struct ParamId(pub u64);

/// `s + k (mod 2^64)`: the counter after `k` more allocations.
pub open spec fn counter_after(s: u64, k: nat) -> u64 {
    ((s + k) % 0x1_0000_0000_0000_0000) as u64
}

/// The monotonic counter that parameter ids are drawn from. It starts at 1
/// and hands out consecutive values, wrapping around after `u64::MAX`.
#[derive(Debug)]
pub struct ParamIdCounter {
    next: u64,
}

impl View for ParamIdCounter {
    type V = u64;

    /// The id that the next allocation hands out.
    closed spec fn view(&self) -> u64 {
        self.next
    }
}

impl ParamIdCounter {
    pub fn new() -> (r: Self)
        ensures
            r@ == 1,
    {
        ParamIdCounter { next: 1 }
    }
}

impl ParamId {
    /// Allocate a fresh id from `counter`.
    pub fn new(counter: &mut ParamIdCounter) -> (id: ParamId)
        ensures
            id.0 == old(counter)@,
            final(counter)@ == counter_after(old(counter)@, 1),
    {
        let id = counter.next;
        counter.next = counter.next.wrapping_add(1);
        ParamId(id)
    }
}

/// Ids only grow: from a counter at `s >= 1`, the id handed out after `k`
/// earlier allocations is at least 1 and smaller than the next one, as long
/// as fewer than `2^64 - s` ids have been handed out (no wrap-around).
pub proof fn law_ids_increase(s: u64, k: nat)
    requires
        s >= 1,
        s + k + 1 < 0x1_0000_0000_0000_0000,
    ensures
        counter_after(s, k) >= 1,
        counter_after(s, k) < counter_after(s, k + 1),
{
    assert((s + k) % 0x1_0000_0000_0000_0000int == s + k);
    assert((s + k + 1) % 0x1_0000_0000_0000_0000int == s + k + 1);
}

/// Allocating once more moves the counter one step further.
pub proof fn law_counter_steps(s: u64, k: nat)
    ensures
        counter_after(counter_after(s, k), 1) == counter_after(s, k + 1),
{
    let m = 0x1_0000_0000_0000_0000int;
    vstd::arithmetic::div_mod::lemma_add_mod_noop(s + k, 1, m);
    assert(1int % m == 1);
}

/// Ids drawn from one counter are pairwise distinct for as long as it does
/// not wrap around: the `i`-th and `j`-th allocations differ when `i < j`
/// and fewer than 2^64 ids lie between them.
pub proof fn law_ids_distinct(s: u64, i: nat, j: nat)
    requires
        i < j,
        j - i < 0x1_0000_0000_0000_0000,
    ensures
        counter_after(s, i) != counter_after(s, j),
{
    let m = 0x1_0000_0000_0000_0000int;
    if counter_after(s, i) == counter_after(s, j) {
        vstd::arithmetic::div_mod::lemma_fundamental_div_mod(s + i, m);
        vstd::arithmetic::div_mod::lemma_fundamental_div_mod(s + j, m);
        let qi = (s + i) / m;
        let qj = (s + j) / m;
        assert((s + j) - (s + i) == m * (qj - qi));
        assert(m * (qj - qi) == j - i);
        assert(0 < m * (qj - qi) < m);
        assert(false) by (nonlinear_arith)
            requires
                0 < m * (qj - qi) < m,
                m > 0,
        ;
    }
}

/// The gradients of one backward pass, one per learnable parameter, keyed
/// by the parameter's id. `G` is what a gradient is made of (its values and
/// shape); the store never looks inside it.
#[derive(Debug)]
pub struct GradStore<G> {
    grads: HashMap<u64, G>,
}

impl<G> View for GradStore<G> {
    type V = Map<u64, G>;

    closed spec fn view(&self) -> Map<u64, G> {
        self.grads@
    }
}

impl<G> Default for GradStore<G> {
    /// An empty store.
    fn default() -> (r: Self)
        ensures
            r@ == Map::<u64, G>::empty(),
    {
        GradStore::new()
    }
}

impl<G> GradStore<G> {
    /// An empty store.
    pub fn new() -> (r: Self)
        ensures
            r@ == Map::<u64, G>::empty(),
    {
        GradStore { grads: HashMap::new() }
    }

    /// Store the gradient of `id`, replacing an earlier one.
    pub fn insert(&mut self, id: ParamId, grad: G)
        ensures
            final(self)@ == old(self)@.insert(id.0, grad),
    {
        broadcast use vstd::std_specs::hash::group_hash_axioms;

        self.grads.insert(id.0, grad);
    }

    /// The gradient of `id`, if one was stored.
    pub fn get(&self, id: ParamId) -> (r: Option<&G>)
        ensures
            r matches Some(g) ==> self@.contains_key(id.0) && *g == self@[id.0],
            r is None ==> !self@.contains_key(id.0),
    {
        broadcast use vstd::std_specs::hash::group_hash_axioms;

        self.grads.get(&id.0)
    }

    /// How many parameters have a gradient.
    pub fn len(&self) -> (n: usize)
        ensures
            n == self@.len(),
    {
        broadcast use vstd::std_specs::hash::group_hash_axioms;

        self.grads.len()
    }

    /// Whether no parameter has a gradient.
    pub fn is_empty(&self) -> (b: bool)
        ensures
            b == (self@.dom() =~= Set::<u64>::empty()),
    {
        broadcast use vstd::std_specs::hash::group_hash_axioms;

        self.grads.is_empty()
    }

    /// The ids that have a gradient, each once, in no particular order.
    pub fn ids(&self) -> (r: Vec<ParamId>)
        ensures
            r@.len() == self@.len(),
            forall|i: int| 0 <= i < r@.len() ==> self@.contains_key(#[trigger] r@[i].0),
            forall|k: u64| self@.contains_key(k) ==> exists|i: int| 0 <= i < r@.len() && #[trigger] r@[i].0 == k,
            forall|i: int, j: int| 0 <= i < j < r@.len() ==> r@[i] != r@[j],
    {
        broadcast use vstd::std_specs::hash::group_hash_axioms;

        let ghost keys = vstd::std_specs::iter::IteratorSpec::remaining(
            &vstd::std_specs::hash::spec_keys_iter(&self.grads),
        );
        let mut out: Vec<ParamId> = Vec::new();
        for k in it: self.grads.keys()
            invariant
                it.seq() == keys,
                out@.len() == it.index(),
                forall|j: int| 0 <= j < out@.len() ==> out@[j].0 == *keys[j],
        {
            out.push(ParamId(*k));
        }
        proof {
            assert(keys.unref().to_set() == self@.dom());
            assert forall|i: int| 0 <= i < out@.len() implies self@.contains_key(
                #[trigger] out@[i].0,
            ) by {
                assert(keys.unref()[i] == out@[i].0);
                assert(keys.unref().contains(out@[i].0));
            }
            assert forall|k: u64| self@.contains_key(k) implies exists|i: int|
                0 <= i < out@.len() && #[trigger] out@[i].0 == k by {
                assert(keys.unref().to_set().contains(k));
                let i = choose|i: int| 0 <= i < keys.unref().len() && keys.unref()[i] == k;
                assert(out@[i].0 == k);
            }
            assert forall|i: int, j: int| 0 <= i < j < out@.len() implies out@[i] != out@[j] by {
                assert(keys[i] != keys[j]);
            }
        }
        out
    }
}

/// What a read of the gradient store gives back of a write: after storing
/// `g` for `id`, the store has a gradient for `id` and it is `g`, every
/// other id keeps what it had, and the number of stored gradients grows by
/// one exactly when `id` had none.
pub proof fn law_store_read_after_write<G>(before: Map<u64, G>, id: ParamId, g: G, other: u64)
    requires
        before.dom().finite(),
        other != id.0,
    ensures
        before.insert(id.0, g).contains_key(id.0),
        before.insert(id.0, g)[id.0] == g,
        before.insert(id.0, g).contains_key(other) == before.contains_key(other),
        before.contains_key(other) ==> before.insert(id.0, g)[other] == before[other],
        before.insert(id.0, g).len() == if before.contains_key(id.0) {
            before.len()
        } else {
            before.len() + 1
        },
{
}

/// One recordable operation: the nodes it reads and what its backward
/// formula needs besides its output. `T` is the element type.
#[derive(Debug)]
pub enum Op<T> {
    /// An input or a learnable parameter; nothing to propagate.
    Leaf,
    Add { lhs: NodeId, rhs: NodeId },
    Sub { lhs: NodeId, rhs: NodeId },
    Mul { lhs: NodeId, rhs: NodeId },
    Div { lhs: NodeId, rhs: NodeId },
    Neg { input: NodeId },
    Scale { input: NodeId, factor: T },
    Relu { input: NodeId },
    Sigmoid { input: NodeId },
    Tanh { input: NodeId },
    Exp { input: NodeId },
    Log { input: NodeId },
    Square { input: NodeId },
    Matmul { lhs: NodeId, rhs: NodeId },
    Transpose { input: NodeId },
    SumAll { input: NodeId },
    MeanAll { input: NodeId },
    Reshape { input: NodeId },
    BroadcastRow { input: NodeId, to: Vec<usize> },
    /// Fused softmax + cross-entropy; the softmax is cached for backward.
    SoftmaxXE { logits: NodeId, targets: NodeId, softmax: Vec<T> },
}

/// One recorded operation with its forward output, and the parameter it
/// is when it is a learnable leaf.
pub struct TapeNode<T> {
    pub op: Op<T>,
    pub value: Vec<T>,
    pub shape: Vec<usize>,
    pub param_id: Option<ParamId>,
}

/// The Wengert tape: the recorded operations, in order. A node's id is its
/// position on the tape.
pub struct Tape<T> {
    nodes: Vec<TapeNode<T>>,
}

impl<T> Tape<T> {
    /// The recorded nodes, in order.
    pub closed spec fn recorded(&self) -> Seq<TapeNode<T>> {
        self.nodes@
    }

    /// An empty tape.
    pub fn new() -> (r: Self)
        ensures
            r.recorded().len() == 0,
    {
        Tape { nodes: Vec::new() }
    }

    /// Drop all nodes (between training steps).
    pub fn clear(&mut self)
        ensures
            final(self).recorded().len() == 0,
    {
        self.nodes.clear();
    }

    /// The recorded nodes, in order.
    pub fn node_list(&self) -> (r: &[TapeNode<T>])
        ensures
            r@ == self.recorded(),
    {
        self.nodes.as_slice()
    }

    /// The forward output of node `id`.
    pub fn value(&self, id: NodeId) -> (r: &[T])
        requires
            (id.0 as int) < self.recorded().len(),
        ensures
            r@ == self.recorded()[id.0 as int].value@,
    {
        self.nodes[id.0 as usize].value.as_slice()
    }

    /// The shape of node `id`'s output.
    pub fn shape(&self, id: NodeId) -> (r: &[usize])
        requires
            (id.0 as int) < self.recorded().len(),
        ensures
            r@ == self.recorded()[id.0 as int].shape@,
    {
        self.nodes[id.0 as usize].shape.as_slice()
    }
}

impl<T> Default for Tape<T> {
    /// An empty tape.
    fn default() -> (r: Self)
        ensures
            r.recorded().len() == 0,
    {
        Tape::new()
    }
}

/// The id the next node gets: the tape's length, as the 32-bit id type
/// holds it.
pub open spec fn next_id(len: nat) -> NodeId {
    NodeId(len as u32)
}

/// A recorded tensor names its own node: while the tape holds fewer than
/// 2^32 nodes, the id given to the next node is that node's position.
pub proof fn law_node_id_is_position(len: nat)
    requires
        len < 0x1_0000_0000,
    ensures
        next_id(len).0 == len,
{
}

impl<T: Copy> Tape<T> {
    /// Append `node` and return its id.
    fn push_node(&mut self, node: TapeNode<T>) -> (id: NodeId)
        ensures
            id == next_id(old(self).recorded().len()),
            final(self).recorded() == old(self).recorded().push(node),
    {
        let id = NodeId(#[verifier::truncate] (self.nodes.len() as u32));
        self.nodes.push(node);
        id
    }

    /// Register `t` as a leaf (an input, or the learnable parameter
    /// `param_id`) and return it bound to its new node.
    pub fn leaf(&mut self, t: &Tensor<T>, param_id: Option<ParamId>) -> (r: Tensor<T>)
        ensures
            final(self).recorded().len() == old(self).recorded().len() + 1,
            forall|i: int|
                0 <= i < old(self).recorded().len() ==> final(self).recorded()[i] == old(
                    self,
                ).recorded()[i],
            final(self).recorded().last().op == Op::<T>::Leaf,
            final(self).recorded().last().value@ == t.values(),
            final(self).recorded().last().shape@ == t.dims(),
            final(self).recorded().last().param_id == param_id,
            r.values() == t.values(),
            r.dims() == t.dims(),
            r.tape_node() == Some(next_id(old(self).recorded().len())),
    {
        let data = t.data();
        let node = TapeNode {
            op: Op::Leaf,
            value: vstd::slice::slice_to_vec(data),
            shape: vstd::slice::slice_to_vec(t.shape()),
            param_id,
        };
        let id = self.push_node(node);
        Tensor::with_node(vstd::slice::slice_to_vec(data), vstd::slice::slice_to_vec(t.shape()), id)
    }

    /// Record `op` with its forward output `value` of shape `shape`; the
    /// returned tensor is bound to the new node.
    pub fn record(&mut self, op: Op<T>, value: Vec<T>, shape: Vec<usize>) -> (r: Tensor<T>)
        requires
            value@.len() == shape_product(shape@),
        ensures
            final(self).recorded().len() == old(self).recorded().len() + 1,
            forall|i: int|
                0 <= i < old(self).recorded().len() ==> final(self).recorded()[i] == old(
                    self,
                ).recorded()[i],
            final(self).recorded().last().op == op,
            final(self).recorded().last().value@ == value@,
            final(self).recorded().last().shape@ == shape@,
            final(self).recorded().last().param_id is None,
            r.values() == value@,
            r.dims() == shape@,
            r.tape_node() == Some(next_id(old(self).recorded().len())),
    {
        let node = TapeNode {
            op,
            value: vstd::slice::slice_to_vec(value.as_slice()),
            shape: vstd::slice::slice_to_vec(shape.as_slice()),
            param_id: None,
        };
        let id = self.push_node(node);
        Tensor::with_node(value, shape, id)
    }

    /// The node of `t`: its own when it has one (the tape is unchanged),
    /// else a new transient leaf holding its values.
    pub fn ensure_node(&mut self, t: &Tensor<T>) -> (id: NodeId)
        ensures
            t.tape_node() matches Some(n) ==> id == n && final(self).recorded() == old(
                self,
            ).recorded(),
            t.tape_node() is None ==> {
                &&& id == next_id(old(self).recorded().len())
                &&& final(self).recorded().len() == old(self).recorded().len() + 1
                &&& forall|i: int|
                    0 <= i < old(self).recorded().len() ==> final(self).recorded()[i] == old(
                        self,
                    ).recorded()[i]
                &&& final(self).recorded().last().op == Op::<T>::Leaf
                &&& final(self).recorded().last().value@ == t.values()
                &&& final(self).recorded().last().shape@ == t.dims()
                &&& final(self).recorded().last().param_id is None
            },
    {
        match t.node() {
            Some(id) => id,
            None => {
                let node = TapeNode {
                    op: Op::Leaf,
                    value: vstd::slice::slice_to_vec(t.data()),
                    shape: vstd::slice::slice_to_vec(t.shape()),
                    param_id: None,
                };
                self.push_node(node)
            },
        }
    }
}

/// The nodes that `op` reads.
pub open spec fn op_inputs<T>(op: Op<T>) -> Seq<NodeId> {
    match op {
        Op::Leaf => seq![],
        Op::Add { lhs, rhs } | Op::Sub { lhs, rhs } | Op::Mul { lhs, rhs } | Op::Div { lhs, rhs }
        | Op::Matmul { lhs, rhs } => seq![lhs, rhs],
        Op::Neg { input } | Op::Scale { input, .. } | Op::Relu { input } | Op::Sigmoid { input }
        | Op::Tanh { input } | Op::Exp { input } | Op::Log { input } | Op::Square { input }
        | Op::Transpose { input } | Op::SumAll { input } | Op::MeanAll { input } | Op::Reshape {
            input,
        } | Op::BroadcastRow { input, .. } => seq![input],
        Op::SoftmaxXE { logits, targets, .. } => seq![logits, targets],
    }
}

/// Every node reads only nodes recorded before it.
pub open spec fn reads_earlier<T>(nodes: Seq<TapeNode<T>>) -> bool {
    forall|i: int, k: int|
        0 <= i < nodes.len() && 0 <= k < op_inputs(nodes[i].op).len() ==> (#[trigger] op_inputs(
            nodes[i].op,
        )[k]).0 < i
}

/// The order the backward sweep relies on: recording a node whose inputs
/// are all already on the tape keeps every node reading only earlier
/// nodes, so visiting the nodes in reverse reaches each node after all of
/// its consumers.
pub proof fn law_recording_keeps_order<T>(nodes: Seq<TapeNode<T>>, node: TapeNode<T>)
    requires
        reads_earlier(nodes),
        forall|k: int|
            0 <= k < op_inputs(node.op).len() ==> (#[trigger] op_inputs(node.op)[k]).0
                < nodes.len(),
    ensures
        reads_earlier(nodes.push(node)),
{
    let all = nodes.push(node);
    assert forall|i: int, k: int|
        0 <= i < all.len() && 0 <= k < op_inputs(all[i].op).len() implies (#[trigger] op_inputs(
        all[i].op,
    )[k]).0 < i by {
        if i < nodes.len() {
            assert(all[i] == nodes[i]);
        } else {
            assert(all[i] == node);
        }
    }
}

} // verus!

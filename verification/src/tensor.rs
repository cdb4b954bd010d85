//! The tensor type, shape arithmetic and the data-movement tensor
//! operations (transpose, row broadcast). They only store and move
//! elements, so they are written for any element type; the library
//! instantiates them at `f32`.
use vstd::prelude::*;

verus! {

/// Product of the dimensions (1 for the empty shape).
pub open spec fn shape_product(s: Seq<usize>) -> nat
    decreases s.len(),
{
    if s.len() == 0 {
        1
    } else {
        shape_product(s.drop_last()) * (s.last() as nat)
    }
}

/// Multiplying the dimensions left to right never exceeds `usize::MAX`.
pub open spec fn product_fits(s: Seq<usize>) -> bool {
    forall|k: int| 0 <= k <= s.len() ==> #[trigger] shape_product(s.subrange(0, k)) <= usize::MAX
}

/// Number of elements of a tensor of the given shape.
pub fn numel(shape: &[usize]) -> (n: usize)
    requires
        product_fits(shape@),
    ensures
        n == shape_product(shape@),
{
    let mut n: usize = 1;
    let mut k: usize = 0;
    assert(shape@.subrange(0, 0) =~= Seq::<usize>::empty());
    while k < shape.len()
        invariant
            k <= shape@.len(),
            product_fits(shape@),
            n == shape_product(shape@.subrange(0, k as int)),
        decreases shape.len() - k,
    {
        assert(shape@.subrange(0, k + 1).drop_last() =~= shape@.subrange(0, k as int));
        assert(shape_product(shape@.subrange(0, k + 1)) <= usize::MAX);
        n = n * shape[k];
        k += 1;
    }
    assert(shape@.subrange(0, shape@.len() as int) =~= shape@);
    n
}

/// The number of elements of a tensor of the given shape, or `None` when
/// multiplying the dimensions left to right overflows `usize` at some step.
pub fn checked_numel(shape: &[usize]) -> (r: Option<usize>)
    ensures
        r is Some <==> product_fits(shape@),
        r matches Some(n) ==> n == shape_product(shape@),
{
    let mut n: usize = 1;
    let mut k: usize = 0;
    assert(shape@.subrange(0, 0) =~= Seq::<usize>::empty());
    while k < shape.len()
        invariant
            k <= shape@.len(),
            n == shape_product(shape@.subrange(0, k as int)),
            forall|j: int| 0 <= j <= k ==> #[trigger] shape_product(shape@.subrange(0, j)) <= usize::MAX,
        decreases shape.len() - k,
    {
        assert(shape@.subrange(0, k + 1).drop_last() =~= shape@.subrange(0, k as int));
        match n.checked_mul(shape[k]) {
            Some(m) => {
                n = m;
            },
            None => {
                assert(shape_product(shape@.subrange(0, k + 1)) > usize::MAX);
                return None;
            },
        }
        k += 1;
    }
    assert(shape@.subrange(0, shape@.len() as int) =~= shape@);
    Some(n)
}

/// The row-major `[cols, rows]` transpose of the row-major `[rows, cols]`
/// matrix `t`: element `k` of the result is element `(k mod rows, k div rows)`
/// of `t`.
pub open spec fn transposed<T>(t: Seq<T>, rows: nat, cols: nat) -> Seq<T> {
    Seq::new(rows * cols, |k: int| t[(k % rows as int) * cols + k / rows as int])
}

proof fn lemma_index_bound(i: int, j: int, rows: int, cols: int)
    requires
        0 <= i < rows,
        0 <= j < cols,
    ensures
        0 <= i * cols + j < rows * cols,
        0 <= j * rows + i < rows * cols,
{
    assert(0 <= i * cols + j < rows * cols) by (nonlinear_arith)
        requires
            0 <= i < rows,
            0 <= j < cols,
    ;
    assert(0 <= j * rows + i < rows * cols) by (nonlinear_arith)
        requires
            0 <= i < rows,
            0 <= j < cols,
    ;
}

proof fn lemma_div_mod_of(i: int, j: int, rows: int)
    requires
        0 <= i < rows,
        0 <= j,
    ensures
        (j * rows + i) % rows == i,
        (j * rows + i) / rows == j,
{
    vstd::arithmetic::div_mod::lemma_fundamental_div_mod_converse(j * rows + i, rows, j, i);
}

/// Transpose a 2-D row-major matrix of shape `[rows, cols]`.
pub fn transpose_2d<T: Copy>(t: &[T], shape: &[usize]) -> (r: (Vec<T>, Vec<usize>))
    requires
        shape@.len() == 2,
        shape@[0] * shape@[1] <= t@.len(),
    ensures
        r.1@ == seq![shape@[1], shape@[0]],
        r.0@ == transposed(t@, shape@[0] as nat, shape@[1] as nat),
        r.0@.len() == shape@[0] * shape@[1],
        forall|i: int, j: int|
            0 <= i < shape@[0] && 0 <= j < shape@[1] ==> #[trigger] r.0@[j * shape@[0] + i]
                == t@[i * shape@[1] + j],
{
    let rows = shape[0];
    let cols = shape[1];
    let tlen = t.len();
    let ghost expect = transposed(t@, rows as nat, cols as nat);
    let mut out: Vec<T> = Vec::new();
    let mut c: usize = 0;
    while c < cols
        invariant
            tlen == t@.len(),
            rows * cols <= t@.len(),
            c <= cols,
            expect == transposed(t@, rows as nat, cols as nat),
            out@ == expect.subrange(0, c * rows),
        decreases cols - c,
    {
        let mut r: usize = 0;
        proof {
            assert(c * rows + rows <= rows * cols) by (nonlinear_arith)
                requires
                    c < cols,
            ;
        }
        while r < rows
            invariant
                tlen == t@.len(),
                rows * cols <= t@.len(),
                c < cols,
                r <= rows,
                c * rows + rows <= rows * cols,
                expect == transposed(t@, rows as nat, cols as nat),
                out@ == expect.subrange(0, c * rows + r),
            decreases rows - r,
        {
            proof {
                lemma_index_bound(r as int, c as int, rows as int, cols as int);
                lemma_div_mod_of(r as int, c as int, rows as int);
            }
            let x = t[r * cols + c];
            out.push(x);
            assert(out@ =~= expect.subrange(0, c * rows + r + 1));
            r += 1;
        }
        assert(c * rows + rows == (c + 1) * rows) by (nonlinear_arith);
        c += 1;
    }
    assert(expect.subrange(0, cols * rows) =~= expect) by {
        assert(cols * rows == rows * cols) by (nonlinear_arith);
    }
    proof {
        law_transpose_entries(t@, rows as nat, cols as nat);
    }
    let mut s: Vec<usize> = Vec::new();
    s.push(cols);
    s.push(rows);
    assert(s@ =~= seq![cols, rows]);
    (out, s)
}

/// The transpose moves each element across the diagonal: the element in
/// row `i`, column `j` of the `[rows, cols]` matrix `t` is the element in
/// row `j`, column `i` of the `[cols, rows]` result, and nothing else is
/// in the result.
pub proof fn law_transpose_entries<T>(t: Seq<T>, rows: nat, cols: nat)
    requires
        rows * cols <= t.len(),
    ensures
        transposed(t, rows, cols).len() == cols * rows,
        forall|i: int, j: int|
            0 <= i < rows && 0 <= j < cols ==> #[trigger] transposed(t, rows, cols)[j * rows + i]
                == t[i * cols + j],
{
    assert(rows * cols == cols * rows) by (nonlinear_arith);
    assert forall|i: int, j: int| 0 <= i < rows && 0 <= j < cols implies #[trigger] transposed(
        t,
        rows,
        cols,
    )[j * rows + i] == t[i * cols + j] by {
        lemma_index_bound(i, j, rows as int, cols as int);
        lemma_div_mod_of(i, j, rows as int);
    }
}

/// Transposing twice gives the matrix back.
pub proof fn law_transpose_twice<T>(t: Seq<T>, rows: nat, cols: nat)
    requires
        t.len() == rows * cols,
    ensures
        transposed(transposed(t, rows, cols), cols, rows) == t,
{
    let u = transposed(t, rows, cols);
    let v = transposed(u, cols, rows);
    assert(v.len() == t.len()) by {
        assert(cols * rows == rows * cols) by (nonlinear_arith);
    }
    assert forall|k: int| 0 <= k < t.len() implies v[k] == t[k] by {
        let i = k / cols as int;
        let j = k % cols as int;
        vstd::arithmetic::div_mod::lemma_fundamental_div_mod(k, cols as int);
        assert(0 <= j < cols);
        assert(0 <= i < rows) by {
            vstd::arithmetic::div_mod::lemma_div_pos_is_pos(k, cols as int);
            vstd::arithmetic::div_mod::lemma_div_by_multiple_is_strongly_ordered(
                k,
                rows * cols as int,
                rows as int,
                cols as int,
            );
            assert(rows * cols == cols * rows) by (nonlinear_arith);
            vstd::arithmetic::div_mod::lemma_div_multiples_vanish(rows as int, cols as int);
        }
        let m = j * rows + i;
        lemma_index_bound(i, j, rows as int, cols as int);
        lemma_div_mod_of(i, j, rows as int);
        assert(v[k] == u[m]);
        assert(u[m] == t[i * cols + j]);
        assert(i * cols + j == k) by (nonlinear_arith)
            requires
                k == cols * i + j,
        ;
    }
    assert(v =~= t);
}


/// A scalar shape: `[]` or `[1]`.
pub open spec fn is_scalar_shape(s: Seq<usize>) -> bool {
    s.len() == 0 || s == seq![1usize]
}

/// A row of `cols` values: `[cols]` or `[1, cols]`.
pub open spec fn is_row_shape(s: Seq<usize>, cols: usize) -> bool {
    s == seq![cols] || s == seq![1usize, cols]
}

/// `src` repeated `rows` times.
pub open spec fn repeat_rows<T>(src: Seq<T>, rows: nat) -> Seq<T>
    decreases rows,
{
    if rows == 0 {
        Seq::empty()
    } else {
        repeat_rows(src, (rows - 1) as nat) + src
    }
}

/// Broadcast `src` (a scalar or a bias row) to the 2-D shape `target =
/// [rows, cols]`, returning the row-major data: a scalar (`[]` or `[1]`)
/// fills all `rows * cols` cells; a row (`[cols]` or `[1, cols]`) is
/// repeated down the rows.
pub fn broadcast_row<T: Copy>(src: &[T], src_shape: &[usize], target: &[usize]) -> (out: Vec<T>)
    requires
        target@.len() == 2,
        target@[0] * target@[1] <= usize::MAX,
        is_scalar_shape(src_shape@) || is_row_shape(src_shape@, target@[1]),
        is_scalar_shape(src_shape@) ==> src@.len() >= 1,
    ensures
        is_scalar_shape(src_shape@) ==> out@ == Seq::new(
            (target@[0] * target@[1]) as nat,
            |k: int| src@[0],
        ),
        !is_scalar_shape(src_shape@) ==> out@ == repeat_rows(src@, target@[0] as nat),
{
    let rows = target[0];
    let cols = target[1];
    let scalar = src_shape.len() == 0 || (src_shape.len() == 1 && src_shape[0] == 1);
    assert(scalar == is_scalar_shape(src_shape@)) by {
        if src_shape@.len() == 1 && src_shape@[0] == 1 {
            assert(src_shape@ =~= seq![1usize]);
        }
    }
    let mut out: Vec<T> = Vec::new();
    if scalar {
        let n = rows * cols;
        let x = src[0];
        let mut k: usize = 0;
        while k < n
            invariant
                k <= n,
                out@ == Seq::new(k as nat, |i: int| src@[0]),
                x == src@[0],
            decreases n - k,
        {
            out.push(x);
            k += 1;
            assert(out@ =~= Seq::new(k as nat, |i: int| src@[0]));
        }
    } else {
        let mut r: usize = 0;
        while r < rows
            invariant
                r <= rows,
                out@ == repeat_rows(src@, r as nat),
            decreases rows - r,
        {
            let ghost before = out@;
            let mut i: usize = 0;
            while i < src.len()
                invariant
                    i <= src@.len(),
                    out@ == before + src@.subrange(0, i as int),
                decreases src.len() - i,
            {
                out.push(src[i]);
                i += 1;
                assert(out@ =~= before + src@.subrange(0, i as int));
            }
            assert(src@.subrange(0, src@.len() as int) =~= src@);
            r += 1;
        }
    }
    out
}

/// Identifier for a node on a tape: the node's position on it.
#[derive(Debug, Clone, Copy, PartialEq, Eq, Structural, Hash)]
pub struct NodeId(pub u32);

/// A dense row-major tensor: its shape, exactly as many values as the shape
/// has cells, and the tape node it was recorded as, if any.
pub struct Tensor<T> {
    shape: Vec<usize>,
    data: Vec<T>,
    node: Option<NodeId>,
}

impl<T> Tensor<T> {
    #[verifier::type_invariant]
    spec fn well_formed(self) -> bool {
        self.data@.len() == shape_product(self.shape@)
    }

    /// The shape.
    pub closed spec fn dims(&self) -> Seq<usize> {
        self.shape@
    }

    /// The values, row-major.
    pub closed spec fn values(&self) -> Seq<T> {
        self.data@
    }

    /// The tape node, once the tensor is recorded on a tape.
    pub closed spec fn tape_node(&self) -> Option<NodeId> {
        self.node
    }

    /// A detached tensor of the given shape over `data`, which must hold
    /// one value per cell.
    pub fn from_data(data: Vec<T>, shape: &[usize]) -> (t: Self)
        requires
            product_fits(shape@),
            data@.len() == shape_product(shape@),
        ensures
            t.dims() == shape@,
            t.values() == data@,
            t.tape_node() is None,
    {
        let n_expected = numel(shape);
        assert(data.len() == n_expected);
        let dims = vstd::slice::slice_to_vec(shape);
        Tensor { shape: dims, data, node: None }
    }

    /// A tensor recorded as `node` on a tape.
    pub fn with_node(data: Vec<T>, shape: Vec<usize>, node: NodeId) -> (t: Self)
        requires
            data@.len() == shape_product(shape@),
        ensures
            t.dims() == shape@,
            t.values() == data@,
            t.tape_node() == Some(node),
    {
        Tensor { shape, data, node: Some(node) }
    }

    /// The values, row-major.
    pub fn data(&self) -> (r: &[T])
        ensures
            r@ == self.values(),
            r@.len() == shape_product(self.dims()),
    {
        proof {
            use_type_invariant(self);
        }
        self.data.as_slice()
    }

    /// Overwrite the value at flat index `i`; the shape and the number of
    /// values stay as they are.
    pub fn set(&mut self, i: usize, value: T)
        requires
            i < old(self).values().len(),
        ensures
            final(self).values() == old(self).values().update(i as int, value),
            final(self).dims() == old(self).dims(),
            final(self).tape_node() == old(self).tape_node(),
    {
        proof {
            use_type_invariant(&*self);
        }
        self.data[i] = value;
    }

    /// The shape.
    pub fn shape(&self) -> (r: &[usize])
        ensures
            r@ == self.dims(),
    {
        self.shape.as_slice()
    }

    /// The number of dimensions.
    pub fn rank(&self) -> (r: usize)
        ensures
            r == self.dims().len(),
    {
        self.shape.len()
    }

    /// The number of values (the product of the dimensions).
    pub fn numel(&self) -> (r: usize)
        ensures
            r == self.values().len(),
            r == shape_product(self.dims()),
    {
        proof {
            use_type_invariant(self);
        }
        self.data.len()
    }

    /// The tape node, if the tensor was recorded on a tape.
    pub fn node(&self) -> (r: Option<NodeId>)
        ensures
            r == self.tape_node(),
    {
        self.node
    }
}

impl<T: Copy> Tensor<T> {
    /// A detached tensor of the given shape with every cell set to `value`.
    pub fn filled(shape: &[usize], value: T) -> (t: Self)
        requires
            product_fits(shape@),
        ensures
            t.dims() == shape@,
            t.values() == Seq::new(shape_product(shape@), |k: int| value),
            t.tape_node() is None,
    {
        let n = numel(shape);
        let mut data: Vec<T> = Vec::new();
        while data.len() < n
            invariant
                data@.len() <= n,
                forall|k: int| 0 <= k < data@.len() ==> data@[k] == value,
            decreases n - data@.len(),
        {
            data.push(value);
        }
        assert(data@ =~= Seq::new(shape_product(shape@), |k: int| value));
        Tensor::from_data(data, shape)
    }

    /// The single value of a tensor with one cell (a scalar or a
    /// one-element vector); `None` otherwise.
    pub fn item(&self) -> (r: Option<T>)
        ensures
            self.values().len() == 1 ==> r == Some(self.values()[0]),
            self.values().len() != 1 ==> r is None,
    {
        if self.data.len() == 1 {
            Some(self.data[0])
        } else {
            None
        }
    }
}

impl<T: Copy> Clone for Tensor<T> {
    /// An independent copy: same shape, values and node.
    fn clone(&self) -> (r: Self)
        ensures
            r.dims() == self.dims(),
            r.values() == self.values(),
            r.tape_node() == self.tape_node(),
    {
        proof {
            use_type_invariant(self);
        }
        let mut data: Vec<T> = Vec::new();
        let mut i: usize = 0;
        while i < self.data.len()
            invariant
                i <= self.data@.len(),
                data@ == self.data@.subrange(0, i as int),
            decreases self.data@.len() - i,
        {
            data.push(self.data[i]);
            i = i + 1;
            assert(data@ =~= self.data@.subrange(0, i as int));
        }
        assert(data@ =~= self.data@);
        let shape = self.shape.clone();
        assert(shape@ =~= self.shape@);
        Tensor { shape, data, node: self.node }
    }
}

} // verus!

//! The shape rules of autodiff tensor operations.
use vstd::prelude::*;
use crate::autodiff::error::TensorError;
use crate::shape::dims_product;
use crate::text::{decimal, decimal_text, dims_text, dims_text_spec};

verus! {

/// Multiplying the dimensions of `shape` from the left never overflows `usize`.
pub open spec fn prefix_products_fit(shape: Seq<usize>) -> bool {
    forall|k: int| 0 <= k <= shape.len() ==> #[trigger] dims_product(shape.take(k)) <= usize::MAX
}

/// The number of elements of a tensor of `shape`: the product of its dimensions.
pub fn numel(shape: &[usize]) -> (n: usize)
    requires
        prefix_products_fit(shape@),
    ensures
        n == dims_product(shape@),
{
    let mut n: usize = 1;
    let mut i: usize = 0;
    while i < shape.len()
        invariant
            i <= shape@.len(),
            prefix_products_fit(shape@),
            n == dims_product(shape@.take(i as int)),
        decreases shape@.len() - i,
    {
        proof {
            assert(shape@.take(i + 1) =~= shape@.take(i as int).push(shape@[i as int]));
            crate::shape::lemma_product_push(shape@.take(i as int), shape@[i as int]);
            assert(dims_product(shape@.take(i + 1)) <= usize::MAX);
        }
        n = n * shape[i];
        i += 1;
    }
    assert(shape@.take(shape@.len() as int) =~= shape@);
    n
}

/// Checks that `len` values fill a tensor of `shape`.
pub fn check_from_vec(shape: &[usize], len: usize) -> (r: Result<(), TensorError>)
    requires
        prefix_products_fit(shape@),
    ensures
        r is Ok <==> dims_product(shape@) == len,
        r matches Err(e) ==> (e matches TensorError::Shape(m) && m@ == "from_vec: expected numel "@
            + decimal(dims_product(shape@)) + ", got data.len "@ + decimal(len as nat)),
{
    let n = numel(shape);
    if n != len {
        let mut msg = String::from_str("from_vec: expected numel ");
        msg.append(decimal_text(n).as_str());
        msg.append(", got data.len ");
        msg.append(decimal_text(len).as_str());
        return Err(TensorError::Shape(msg));
    }
    Ok(())
}

/// Checks that a tensor of `numel` elements can be seen with `shape`.
pub fn check_reshape(shape: &[usize], numel_now: usize) -> (r: Result<(), TensorError>)
    requires
        prefix_products_fit(shape@),
    ensures
        r is Ok <==> dims_product(shape@) == numel_now,
        r matches Err(e) ==> (e matches TensorError::Shape(m) && m@ == "reshape: expected numel "@
            + decimal(dims_product(shape@)) + ", got "@ + decimal(numel_now as nat)),
{
    let n = numel(shape);
    if n != numel_now {
        let mut msg = String::from_str("reshape: expected numel ");
        msg.append(decimal_text(n).as_str());
        msg.append(", got ");
        msg.append(decimal_text(numel_now).as_str());
        return Err(TensorError::Shape(msg));
    }
    Ok(())
}

/// The dimensions `(m, k, n)` of a product of an `m x k` and a `k x n` matrix.
pub fn matmul_dims(a: &[usize], b: &[usize]) -> (r: Result<(usize, usize, usize), TensorError>)
    ensures
        (a@.len() == 2 && b@.len() == 2 && a@[1] == b@[0]) ==> r == Ok::<
            (usize, usize, usize),
            TensorError,
        >((a@[0], a@[1], b@[1])),
        !(a@.len() == 2 && b@.len() == 2) ==> (r matches Err(TensorError::Shape(m)) && m@
            == "matmul: expected rank-2 tensors"@),
        a@.len() == 2 && b@.len() == 2 && a@[1] != b@[0] ==> (r matches Err(TensorError::Shape(m))
            && m@ == "matmul: k mismatch "@ + decimal(a@[1] as nat) + " vs "@ + decimal(
            b@[0] as nat,
        )),
{
    if a.len() != 2 || b.len() != 2 {
        return Err(TensorError::Shape(String::from_str("matmul: expected rank-2 tensors")));
    }
    let (m, k1) = (a[0], a[1]);
    let (k2, n) = (b[0], b[1]);
    if k1 != k2 {
        let mut msg = String::from_str("matmul: k mismatch ");
        msg.append(decimal_text(k1).as_str());
        msg.append(" vs ");
        msg.append(decimal_text(k2).as_str());
        return Err(TensorError::Shape(msg));
    }
    Ok((m, k1, n))
}

/// How an addition combines its operands.
#[derive(Clone, Copy, Debug, PartialEq, Eq, Structural)]
pub enum AddMode {
    /// Both operands have the same shape; elements are added pairwise.
    Same,
    /// An `m x n` matrix plus a vector of length `n`, added to every row.
    RowBroadcast { m: usize, n: usize },
}

fn same_shape(a: &[usize], b: &[usize]) -> (r: bool)
    ensures
        r == (a@ == b@),
{
    if a.len() != b.len() {
        return false;
    }
    let mut i: usize = 0;
    while i < a.len()
        invariant
            a@.len() == b@.len(),
            i <= a@.len(),
            forall|k: int| 0 <= k < i ==> a@[k] == b@[k],
        decreases a@.len() - i,
    {
        if a[i] != b[i] {
            return false;
        }
        i += 1;
    }
    assert(a@ =~= b@);
    true
}

/// The way `a + b` is computed: pairwise for equal shapes, by rows for an
/// `m x n` matrix and a length-`n` vector; other shapes are refused.
pub fn add_mode(a: &[usize], b: &[usize]) -> (r: Result<AddMode, TensorError>)
    ensures
        a@ == b@ ==> r == Ok::<AddMode, TensorError>(AddMode::Same),
        a@ != b@ && a@.len() == 2 && b@.len() == 1 && a@[1] == b@[0] ==> r == Ok::<
            AddMode,
            TensorError,
        >(AddMode::RowBroadcast { m: a@[0], n: a@[1] }),
        a@ != b@ && !(a@.len() == 2 && b@.len() == 1 && a@[1] == b@[0]) ==> (r matches Err(
            TensorError::Shape(m),
        ) && m@ == "add: unsupported shapes "@ + dims_text_spec(a@) + " + "@ + dims_text_spec(b@)),
{
    if same_shape(a, b) {
        Ok(AddMode::Same)
    } else if a.len() == 2 && b.len() == 1 && a[1] == b[0] {
        Ok(AddMode::RowBroadcast { m: a[0], n: a[1] })
    } else {
        let mut msg = String::from_str("add: unsupported shapes ");
        msg.append(dims_text(a).as_str());
        msg.append(" + ");
        msg.append(dims_text(b).as_str());
        Err(TensorError::Shape(msg))
    }
}

/// The batch size and class count `(bs, c)` of a cross-entropy over logits
/// of `shape` with `labels_len` labels.
pub fn cross_entropy_dims(shape: &[usize], labels_len: usize) -> (r: Result<
    (usize, usize),
    TensorError,
>)
    ensures
        (shape@.len() == 2 && labels_len == shape@[0]) ==> r == Ok::<(usize, usize), TensorError>(
            (shape@[0], shape@[1]),
        ),
        shape@.len() != 2 ==> (r matches Err(TensorError::Shape(m)) && m@
            == "cross_entropy_logits: expected rank-2"@),
        shape@.len() == 2 && labels_len != shape@[0] ==> (r matches Err(TensorError::Shape(m)) && m@
            == "labels len mismatch"@),
{
    if shape.len() != 2 {
        return Err(TensorError::Shape(String::from_str("cross_entropy_logits: expected rank-2")));
    }
    let (bs, c) = (shape[0], shape[1]);
    if labels_len != bs {
        return Err(TensorError::Shape(String::from_str("labels len mismatch")));
    }
    Ok((bs, c))
}

/// The result of an operation joins the gradient graph exactly when
/// gradients are enabled and some input requires a gradient.
pub open spec fn records_graph_spec(grad_enabled: bool, input_requires_grad: bool) -> bool {
    grad_enabled && input_requires_grad
}

/// Whether the result of an operation joins the gradient graph (and then
/// requires a gradient itself).
pub fn records_graph(grad_enabled: bool, input_requires_grad: bool) -> (r: bool)
    ensures
        r == records_graph_spec(grad_enabled, input_requires_grad),
{
    grad_enabled && input_requires_grad
}

/// Checks that a backward pass can start from a tensor of `numel` elements:
/// it must be a scalar that requires a gradient.
pub fn check_backward(numel: usize, requires_grad: bool) -> (r: Result<(), TensorError>)
    ensures
        r is Ok <==> (numel == 1 && requires_grad),
        numel != 1 ==> (r matches Err(TensorError::Backward(m)) && m@
            == "backward: expected scalar tensor"@),
        numel == 1 && !requires_grad ==> (r matches Err(TensorError::Backward(m)) && m@
            == "backward: expected requires_grad=true"@),
{
    if numel != 1 {
        return Err(TensorError::Backward(String::from_str("backward: expected scalar tensor")));
    }
    if !requires_grad {
        return Err(TensorError::Backward(String::from_str("backward: expected requires_grad=true")));
    }
    Ok(())
}

/// Inside a no-grad region, where the flag is `false`, no result joins the
/// graph; a result outside the graph passes that on to every result computed
/// from it alone, whatever the flag; and a backward pass cannot start from
/// such a result.
pub proof fn lemma_no_grad_blocks_backward(grad_enabled: bool, input_requires_grad: bool, numel: usize)
    ensures
        !records_graph_spec(false, input_requires_grad),
        !records_graph_spec(grad_enabled, false),
        !(numel == 1 && records_graph_spec(false, input_requires_grad)),
{
}

} // verus!

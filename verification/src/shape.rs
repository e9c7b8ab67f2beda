//! Validated shapes and the shape algebra of broadcasting and reductions.
use vstd::prelude::*;
use tinyvec::ArrayVec;
use crate::error::Error;
use crate::text::{decimal, decimal_text};
use crate::small_vec::{
    MAX_RANK, dims_contents, dims_new, dims_push, dims_as_slice, strides_contents,
    strides_from_slice,
};

verus! {

/// The largest number of elements a tensor may have.
pub const MAX_ELEMENTS: usize = isize::MAX as usize;

/// The number of elements of a tensor with dimensions `s`.
pub open spec fn dims_product(s: Seq<usize>) -> nat
    decreases s.len(),
{
    if s.len() == 0 {
        1
    } else {
        (s[0] as nat) * dims_product(s.drop_first())
    }
}

/// The product of the dimensions from `i` on.
pub open spec fn suffix_product(s: Seq<usize>, i: int) -> nat {
    dims_product(s.subrange(i, s.len() as int))
}

/// The index of the first dimension at which building a shape from `s`
/// fails: a zero dimension, or a prefix whose product exceeds `MAX_ELEMENTS`.
pub open spec fn first_bad_dim(s: Seq<usize>) -> Option<int>
    decreases s.len(),
{
    if s.len() == 0 {
        None
    } else {
        match first_bad_dim(s.drop_last()) {
            Some(j) => Some(j),
            None => if s.last() == 0 || dims_product(s) > MAX_ELEMENTS {
                Some(s.len() - 1)
            } else {
                None
            },
        }
    }
}

/// Dimensions that form a valid shape.
pub open spec fn valid_dims(s: Seq<usize>) -> bool {
    s.len() <= MAX_RANK && first_bad_dim(s) is None
}

/// Row-major strides: each stride is the product of the dimensions after it.
pub open spec fn is_contiguous_strides(shape: Seq<usize>, strides: Seq<isize>) -> bool {
    &&& strides.len() == shape.len()
    &&& forall|i: int| 0 <= i < shape.len() ==> strides[i] == suffix_product(shape, i + 1)
}

/// The value `usize::try_from(p).unwrap_or(usize::MAX)` for a product `p`.
pub open spec fn clamp_to_usize(p: nat) -> nat {
    if p > usize::MAX { usize::MAX as nat } else { p }
}

/// What building a shape from `dims` gives: `Ok` with those dimensions, or the error.
pub open spec fn shape_result_matches(dims: Seq<usize>, r: Result<ConcreteShape, Error>) -> bool {
    if dims.len() > MAX_RANK {
        r matches Err(Error::InvalidShape(m)) && m@ == "tensor rank must be <= 12"@
    } else {
        match first_bad_dim(dims) {
            None => r matches Ok(s) && s@ == dims,
            Some(j) => if dims[j] == 0 {
                r matches Err(Error::InvalidShape(m)) && m@ == "zero-sized dimensions are not supported"@
            } else {
                r matches Err(Error::TensorTooLarge { limit, requested })
                    && limit == MAX_ELEMENTS
                    && requested == clamp_to_usize(dims_product(dims.take(j + 1)))
            },
        }
    }
}

/// Multiplying by a factor of at least one does not decrease a value.
pub proof fn lemma_mul_grows(a: int, b: int)
    requires
        a >= 1,
        b >= 0,
    ensures
        a * b >= b,
        b * a >= b,
{
    assert(a * b >= b) by (nonlinear_arith)
        requires
            a >= 1,
            b >= 0,
    ;
    assert(b * a == a * b) by (nonlinear_arith);
}

pub proof fn lemma_product_push(s: Seq<usize>, x: usize)
    ensures
        dims_product(s.push(x)) == dims_product(s) * x,
    decreases s.len(),
{
    let t = s.push(x);
    if s.len() == 0 {
        assert(t.drop_first() =~= Seq::<usize>::empty());
        assert(t[0] == x);
        assert(dims_product(t) == (x as nat) * dims_product(t.drop_first()));
        let u = dims_product(t.drop_first()) as int;
        assert(u == 1);
        assert((x as int) * u == x) by (nonlinear_arith)
            requires
                u == 1,
        ;
        assert(dims_product(s) == 1);
    } else {
        assert(t[0] == s[0]);
        assert(t.drop_first() =~= s.drop_first().push(x));
        lemma_product_push(s.drop_first(), x);
        let a = s[0] as int;
        let b = dims_product(s.drop_first()) as int;
        let c = x as int;
        assert(dims_product(t) == a * (b * c));
        assert(dims_product(s) == a * b);
        assert(a * (b * c) == (a * b) * c) by (nonlinear_arith);
        assert(dims_product(t) == dims_product(s) * x);
    }
}

pub proof fn lemma_product_drop_last(s: Seq<usize>)
    requires
        s.len() > 0,
    ensures
        dims_product(s) == dims_product(s.drop_last()) * s.last(),
{
    assert(s.drop_last().push(s.last()) =~= s);
    lemma_product_push(s.drop_last(), s.last());
}

pub proof fn lemma_product_positive(s: Seq<usize>)
    requires
        forall|i: int| 0 <= i < s.len() ==> s[i] > 0,
    ensures
        dims_product(s) >= 1,
    decreases s.len(),
{
    if s.len() > 0 {
        let t = s.drop_first();
        assert forall|i: int| 0 <= i < t.len() implies t[i] > 0 by {
            assert(t[i] == s[i + 1]);
        }
        lemma_product_positive(t);
        lemma_mul_grows(s[0] as int, dims_product(t) as int);
    }
}

/// Valid dimensions are positive and their product is at most `MAX_ELEMENTS`,
/// and conversely.
pub proof fn lemma_valid_dims_iff(s: Seq<usize>)
    ensures
        first_bad_dim(s) is None <==> ((forall|i: int| 0 <= i < s.len() ==> s[i] > 0)
            && dims_product(s) <= MAX_ELEMENTS),
    decreases s.len(),
{
    if s.len() > 0 {
        let p = s.drop_last();
        lemma_valid_dims_iff(p);
        lemma_product_drop_last(s);
        if forall|i: int| 0 <= i < s.len() ==> s[i] > 0 {
            assert(forall|i: int| 0 <= i < p.len() ==> p[i] > 0) by {
                assert forall|i: int| 0 <= i < p.len() implies p[i] > 0 by {
                    assert(p[i] == s[i]);
                }
            }
            lemma_product_positive(p);
            lemma_mul_grows(s.last() as int, dims_product(p) as int);
        }
        if first_bad_dim(s) is None {
            assert forall|i: int| 0 <= i < s.len() implies s[i] > 0 by {
                if i < s.len() - 1 {
                    assert(p[i] == s[i]);
                }
            }
        }
    }
}

/// Valid dimensions are positive and their product is between 1 and `MAX_ELEMENTS`.
pub proof fn lemma_valid_facts(s: Seq<usize>)
    requires
        valid_dims(s),
    ensures
        forall|i: int| 0 <= i < s.len() ==> s[i] > 0,
        1 <= dims_product(s) <= MAX_ELEMENTS,
{
    lemma_valid_dims_iff(s);
    lemma_product_positive(s);
}

pub proof fn lemma_suffix_product_step(s: Seq<usize>, i: int)
    requires
        0 <= i < s.len(),
    ensures
        suffix_product(s, i) == (s[i] as nat) * suffix_product(s, i + 1),
{
    assert(s.subrange(i, s.len() as int).drop_first() =~= s.subrange(i + 1, s.len() as int));
}

pub proof fn lemma_suffix_product_bound(s: Seq<usize>, i: int)
    requires
        0 <= i <= s.len(),
        forall|k: int| 0 <= k < s.len() ==> s[k] > 0,
    ensures
        1 <= suffix_product(s, i) <= dims_product(s),
    decreases i,
{
    if i == 0 {
        assert(s.subrange(0, s.len() as int) =~= s);
        lemma_product_positive(s);
    } else {
        lemma_suffix_product_bound(s, i - 1);
        lemma_suffix_product_step(s, i - 1);
        assert(s.subrange(i, s.len() as int) =~= s.subrange(i - 1, s.len() as int).drop_first());
        let q = s.subrange(i, s.len() as int);
        assert forall|k: int| 0 <= k < q.len() implies q[k] > 0 by {
            assert(q[k] == s[i + k]);
        }
        lemma_product_positive(q);
        lemma_mul_grows(s[i - 1] as int, suffix_product(s, i) as int);
    }
}

/// A shape whose rank is at most `MAX_RANK`, whose dimensions are all
/// positive and whose number of elements is at most `MAX_ELEMENTS`.
#[derive(Debug, PartialEq, Eq)]
pub struct ConcreteShape {
    dims: ArrayVec<[usize; MAX_RANK]>,
}

impl View for ConcreteShape {
    type V = Seq<usize>;

    closed spec fn view(&self) -> Seq<usize> {
        dims_contents(self.dims)
    }
}

impl Clone for ConcreteShape {
    fn clone(&self) -> (r: Self)
        ensures
            r@ == self@,
    {
        proof {
            use_type_invariant(self);
        }
        ConcreteShape { dims: self.dims }
    }
}

impl ConcreteShape {
    #[verifier::type_invariant]
    closed spec fn shape_invariant(self) -> bool {
        valid_dims(self@)
    }

    /// Builds a shape from `dims`, which must be a valid shape.
    pub fn from_slice(dims: &[usize]) -> (r: Result<Self, Error>)
        ensures
            shape_result_matches(dims@, r),
    {
        match Self::collect_dims(dims) {
            Ok(d) => Ok(ConcreteShape { dims: d }),
            Err(e) => Err(e),
        }
    }

    /// The dimensions.
    pub fn as_slice(&self) -> (s: &[usize])
        ensures
            s@ == self@,
            valid_dims(self@),
    {
        proof {
            use_type_invariant(self);
        }
        dims_as_slice(&self.dims)
    }

    /// The number of dimensions.
    pub fn rank(&self) -> (r: usize)
        ensures
            r == self@.len(),
            valid_dims(self@),
    {
        proof {
            use_type_invariant(self);
        }
        dims_as_slice(&self.dims).len()
    }

    /// The number of elements: the product of the dimensions.
    pub fn num_elements(&self) -> (n: usize)
        ensures
            n == dims_product(self@),
            valid_dims(self@),
    {
        proof {
            use_type_invariant(self);
            lemma_valid_facts(self@);
        }
        let d = self.as_slice();
        let mut num: usize = 1;
        let mut i: usize = 0;
        while i < d.len()
            invariant
                d@ == self@,
                i <= d@.len(),
                num == dims_product(d@.take(i as int)),
                forall|k: int| 0 <= k < d@.len() ==> d@[k] > 0,
                first_bad_dim(d@) is None,
            decreases d@.len() - i,
        {
            proof {
                assert(d@.take(i as int).push(d@[i as int]) =~= d@.take(i + 1));
                lemma_product_push(d@.take(i as int), d@[i as int]);
                lemma_valid_dims_iff(d@.take(i + 1));
                lemma_prefix_valid(d@, i + 1);
            }
            num = num * d[i];
            i += 1;
        }
        proof {
            assert(d@.take(d@.len() as int) =~= d@);
        }
        num
    }

    /// Row-major strides, in elements, for this shape.
    pub fn contiguous_strides(&self) -> (r: ArrayVec<[isize; MAX_RANK]>)
        ensures
            is_contiguous_strides(self@, strides_contents(r)),
    {
        proof {
            use_type_invariant(self);
            lemma_valid_facts(self@);
        }
        let d = self.as_slice();
        let rank = d.len();
        let mut tmp: Vec<isize> = vec![0; rank];
        let mut stride: isize = 1;
        let mut k: usize = 0;
        while k < rank
            invariant
                d@ == self@,
                rank == d@.len() <= MAX_RANK,
                tmp@.len() == rank,
                k <= rank,
                forall|i: int| 0 <= i < d@.len() ==> d@[i] > 0,
                dims_product(d@) <= MAX_ELEMENTS,
                stride == suffix_product(d@, rank - k),
                forall|j: int| rank - k <= j < rank ==> tmp@[j] == suffix_product(d@, j + 1),
            decreases rank - k,
        {
            let i = rank - 1 - k;
            tmp.set(i, stride);
            proof {
                lemma_suffix_product_step(d@, i as int);
                lemma_suffix_product_bound(d@, i as int);
                lemma_suffix_product_bound(d@, i as int + 1);
                lemma_mul_grows(suffix_product(d@, i + 1) as int, d@[i as int] as int);
                let a = suffix_product(d@, i + 1) as int;
                let b = d@[i as int] as int;
                assert(a * b == b * a) by (nonlinear_arith);
            }
            stride = stride * (d[i] as isize);
            k += 1;
        }
        strides_from_slice(tmp.as_slice())
    }

    fn collect_dims(dims: &[usize]) -> (r: Result<ArrayVec<[usize; MAX_RANK]>, Error>)
        ensures
            dims@.len() > MAX_RANK ==> (r matches Err(Error::InvalidShape(m)) && m@
                == "tensor rank must be <= 12"@),
            dims@.len() <= MAX_RANK ==> match first_bad_dim(dims@) {
                None => r matches Ok(v) && dims_contents(v) == dims@,
                Some(j) => if dims@[j] == 0 {
                    r matches Err(Error::InvalidShape(m)) && m@ == "zero-sized dimensions are not supported"@
                } else {
                    r matches Err(Error::TensorTooLarge { limit, requested })
                        && limit == MAX_ELEMENTS
                        && requested == clamp_to_usize(dims_product(dims@.take(j + 1)))
                },
            },
    {
        if dims.len() > MAX_RANK {
            return Err(Error::invalid_shape("tensor rank must be <= 12"));
        }
        let mut collected = dims_new();
        let mut num_elements: u128 = 1;
        let mut i: usize = 0;
        while i < dims.len()
            invariant
                dims@.len() <= MAX_RANK,
                i <= dims@.len(),
                dims_contents(collected) == dims@.take(i as int),
                first_bad_dim(dims@.take(i as int)) is None,
                num_elements == dims_product(dims@.take(i as int)),
                num_elements <= MAX_ELEMENTS,
            decreases dims@.len() - i,
        {
            let dim = dims[i];
            let ghost next = dims@.take(i + 1);
            proof {
                assert(next.drop_last() =~= dims@.take(i as int));
                assert(next.last() == dim);
                lemma_product_drop_last(next);
                lemma_first_bad_prefix(dims@, i as int);
            }
            if dim == 0 {
                return Err(Error::invalid_shape("zero-sized dimensions are not supported"));
            }
            proof {
                vstd::arithmetic::mul::lemma_mul_upper_bound(
                    num_elements as int,
                    MAX_ELEMENTS as int,
                    dim as int,
                    usize::MAX as int,
                );
                assert((MAX_ELEMENTS as int) * (usize::MAX as int) <= u128::MAX) by (nonlinear_arith)
                    requires
                        MAX_ELEMENTS <= usize::MAX,
                        usize::MAX <= u64::MAX,
                ;
            }
            num_elements = num_elements * (dim as u128);
            if num_elements > MAX_ELEMENTS as u128 {
                let requested: usize = if num_elements > usize::MAX as u128 {
                    usize::MAX
                } else {
                    num_elements as usize
                };
                return Err(Error::TensorTooLarge { limit: MAX_ELEMENTS, requested });
            }
            dims_push(&mut collected, dim);
            i += 1;
        }
        proof {
            assert(dims@.take(dims@.len() as int) =~= dims@);
        }
        Ok(collected)
    }
}

/// A prefix of valid dimensions is valid.
pub proof fn lemma_prefix_valid(s: Seq<usize>, n: int)
    requires
        first_bad_dim(s) is None,
        0 <= n <= s.len(),
    ensures
        first_bad_dim(s.take(n)) is None,
    decreases s.len() - n,
{
    if n < s.len() {
        lemma_prefix_valid(s, n + 1);
        assert(s.take(n + 1).drop_last() =~= s.take(n));
    } else {
        assert(s.take(n) =~= s);
    }
}

/// When the first `i` dimensions are valid, the first bad dimension (if any)
/// is at `i` or later, and it is `i` exactly when dimension `i` fails.
pub proof fn lemma_first_bad_prefix(s: Seq<usize>, i: int)
    requires
        0 <= i < s.len(),
        first_bad_dim(s.take(i)) is None,
    ensures
        (s[i] == 0 || dims_product(s.take(i + 1)) > MAX_ELEMENTS) ==> first_bad_dim(s) == Some(i),
        !(s[i] == 0 || dims_product(s.take(i + 1)) > MAX_ELEMENTS) ==> first_bad_dim(
            s.take(i + 1),
        ) is None,
        !(s[i] == 0 || dims_product(s.take(i + 1)) > MAX_ELEMENTS) ==> first_bad_dim(s)
            == first_bad_dim(s),
{
    assert(s.take(i + 1).drop_last() =~= s.take(i));
    if s[i] == 0 || dims_product(s.take(i + 1)) > MAX_ELEMENTS {
        lemma_first_bad_extends(s, i + 1);
    }
}

/// A bad dimension found in a prefix is the first bad dimension of the whole.
pub proof fn lemma_first_bad_extends(s: Seq<usize>, n: int)
    requires
        0 <= n <= s.len(),
        first_bad_dim(s.take(n)) is Some,
    ensures
        first_bad_dim(s) == first_bad_dim(s.take(n)),
    decreases s.len() - n,
{
    if n < s.len() {
        assert(s.take(n + 1).drop_last() =~= s.take(n));
        lemma_first_bad_extends(s, n + 1);
    } else {
        assert(s.take(n) =~= s);
    }
}


/// The dimension at output position `j` when `s` is right-aligned in `n` positions.
pub open spec fn aligned_dim(s: Seq<usize>, n: int, j: int) -> Option<usize> {
    let off = n - s.len();
    if j >= off {
        Some(s[j - off])
    } else {
        None
    }
}

/// The broadcast of two aligned dimensions, `None` when they are incompatible.
pub open spec fn broadcast_pair(a: Option<usize>, b: Option<usize>) -> Option<usize> {
    match (a, b) {
        (Some(x), Some(y)) => if x == y {
            Some(x)
        } else if x == 1 {
            Some(y)
        } else if y == 1 {
            Some(x)
        } else {
            None
        },
        (Some(x), None) => Some(x),
        (None, Some(y)) => Some(y),
        (None, None) => None,
    }
}

/// The rank of the broadcast of shapes `l` and `r`.
pub open spec fn broadcast_rank(l: Seq<usize>, r: Seq<usize>) -> int {
    if l.len() >= r.len() {
        l.len() as int
    } else {
        r.len() as int
    }
}

/// Shapes `l` and `r` broadcast: every aligned pair is equal or holds a 1.
pub open spec fn broadcast_compatible(l: Seq<usize>, r: Seq<usize>) -> bool {
    let n = broadcast_rank(l, r);
    forall|j: int|
        0 <= j < n ==> (#[trigger] broadcast_pair(aligned_dim(l, n, j), aligned_dim(r, n, j))) is Some
}

/// The broadcast shape of `l` and `r`.
pub open spec fn broadcast_dims(l: Seq<usize>, r: Seq<usize>) -> Seq<usize> {
    let n = broadcast_rank(l, r);
    Seq::new(n as nat, |j: int| broadcast_pair(aligned_dim(l, n, j), aligned_dim(r, n, j)).unwrap())
}

/// Broadcasts two shapes against each other, numpy style: shapes are
/// right-aligned, missing dimensions count as 1, and a dimension of 1
/// stretches to the other.
pub fn broadcast_shapes(lhs: &[usize], rhs: &[usize]) -> (r: Result<Vec<usize>, Error>)
    ensures
        broadcast_compatible(lhs@, rhs@) ==> (r matches Ok(v) && v@ == broadcast_dims(lhs@, rhs@)),
        !broadcast_compatible(lhs@, rhs@) ==> (r matches Err(Error::ShapeMismatch { lhs: a, rhs: b })
            && a@ == lhs@ && b@ == rhs@),
{
    let n: usize = if lhs.len() >= rhs.len() { lhs.len() } else { rhs.len() };
    let ghost gn = n as int;
    let mut shape: Vec<usize> = vec![0; n];
    let mut k: usize = 0;
    while k < n
        invariant
            n == broadcast_rank(lhs@, rhs@),
            gn == n,
            shape@.len() == n,
            k <= n,
            forall|j: int|
                n - k <= j < n ==> (#[trigger] broadcast_pair(
                    aligned_dim(lhs@, gn, j),
                    aligned_dim(rhs@, gn, j),
                )) is Some && shape@[j] == broadcast_pair(
                    aligned_dim(lhs@, gn, j),
                    aligned_dim(rhs@, gn, j),
                ).unwrap(),
        decreases n - k,
    {
        let j = n - 1 - k;
        let l: Option<usize> = if k < lhs.len() { Some(lhs[lhs.len() - 1 - k]) } else { None };
        let r: Option<usize> = if k < rhs.len() { Some(rhs[rhs.len() - 1 - k]) } else { None };
        assert(l == aligned_dim(lhs@, gn, j as int));
        assert(r == aligned_dim(rhs@, gn, j as int));
        let d: usize = match (l, r) {
            (Some(lv), None) => lv,
            (None, Some(rv)) => rv,
            (Some(lv), Some(rv)) => {
                if lv == rv {
                    lv
                } else if lv == 1 {
                    rv
                } else if rv == 1 {
                    lv
                } else {
                    assert(broadcast_pair(
                        aligned_dim(lhs@, gn, j as int),
                        aligned_dim(rhs@, gn, j as int),
                    ) is None);
                    return Err(
                        Error::ShapeMismatch {
                            lhs: vstd::slice::slice_to_vec(lhs),
                            rhs: vstd::slice::slice_to_vec(rhs),
                        },
                    );
                }
            },
            (None, None) => {
                assert(false);
                0
            },
        };
        shape.set(j, d);
        k += 1;
    }
    assert(shape@ =~= broadcast_dims(lhs@, rhs@));
    Ok(shape)
}

/// Axes that are all below `rank` and pairwise distinct.
pub open spec fn axes_valid(axes: Seq<usize>, rank: usize) -> bool {
    &&& forall|i: int| 0 <= i < axes.len() ==> axes[i] < rank
    &&& forall|i: int, j: int| 0 <= i < j < axes.len() ==> axes[i] != axes[j]
}

/// A strictly increasing sequence.
pub open spec fn strictly_increasing(s: Seq<usize>) -> bool {
    forall|i: int, j: int| 0 <= i < j < s.len() ==> s[i] < s[j]
}

/// The axes `0, 1, ..., rank - 1`.
pub open spec fn all_axes(rank: usize) -> Seq<usize> {
    Seq::new(rank as nat, |i: int| i as usize)
}

/// The axes a reduction over `axes` acts on: all of them when `axes` is empty.
pub open spec fn canonical_axes_set(axes: Seq<usize>, rank: usize) -> Seq<usize> {
    if axes.len() == 0 {
        all_axes(rank)
    } else {
        axes
    }
}

/// The position of the first axis from `i` on that is out of bounds for
/// `rank` or repeats an earlier axis; the length when there is none.
pub open spec fn first_bad_axis(axes: Seq<usize>, rank: usize, i: int) -> int
    decreases axes.len() - i,
{
    if i < 0 || i >= axes.len() {
        axes.len() as int
    } else if axes[i] >= rank || axes.take(i).contains(axes[i]) {
        i
    } else {
        first_bad_axis(axes, rank, i + 1)
    }
}

/// The message of the error for the first bad axis of `axes`.
pub open spec fn axes_error_message(axes: Seq<usize>, rank: usize) -> Seq<char> {
    let a = axes[first_bad_axis(axes, rank, 0)];
    if a >= rank {
        "axis "@ + decimal(a as nat) + " out of bounds for rank "@ + decimal(rank as nat)
    } else {
        "axis "@ + decimal(a as nat) + " provided twice"@
    }
}

/// Validates reduction axes for a tensor of rank `rank` and returns them sorted.
/// An empty list means every axis.
pub fn canonical_axes(axes: &[usize], rank: usize) -> (r: Result<Vec<usize>, Error>)
    ensures
        axes@.len() == 0 ==> (r matches Ok(v) && v@ == all_axes(rank)),
        axes@.len() > 0 && axes_valid(axes@, rank) ==> (r matches Ok(v) && strictly_increasing(v@)
            && forall|x: usize| v@.contains(x) <==> axes@.contains(x)),
        axes@.len() > 0 && !axes_valid(axes@, rank) ==> (r matches Err(Error::InvalidAxes(m)) && m@
            == axes_error_message(axes@, rank)),
{
    if axes.len() == 0 {
        let mut all: Vec<usize> = Vec::new();
        let mut a: usize = 0;
        while a < rank
            invariant
                a <= rank,
                all@ =~= all_axes(a),
            decreases rank - a,
        {
            all.push(a);
            a += 1;
        }
        return Ok(all);
    }
    let mut seen: Vec<bool> = vec![false; rank];
    let mut i: usize = 0;
    while i < axes.len()
        invariant
            seen@.len() == rank,
            i <= axes@.len(),
            axes_valid(axes@.take(i as int), rank),
            forall|x: int| 0 <= x < rank ==> (seen@[x] <==> axes@.take(i as int).contains(x as usize)),
            first_bad_axis(axes@, rank, 0) == first_bad_axis(axes@, rank, i as int),
        decreases axes@.len() - i,
    {
        let axis = axes[i];
        if axis >= rank {
            proof {
                assert(axes@[i as int] >= rank);
            }
            let mut msg = String::from_str("axis ");
            msg.append(decimal_text(axis).as_str());
            msg.append(" out of bounds for rank ");
            msg.append(decimal_text(rank).as_str());
            return Err(Error::InvalidAxes(msg));
        }
        if seen[axis] {
            proof {
                let k = choose|k: int| 0 <= k < i && axes@.take(i as int)[k] == axis;
                assert(axes@[k] == axes@[i as int]);
                assert(axes@.take(i as int).contains(axis));
            }
            let mut msg = String::from_str("axis ");
            msg.append(decimal_text(axis).as_str());
            msg.append(" provided twice");
            return Err(Error::InvalidAxes(msg));
        }
        proof {
            if axes@.take(i as int).contains(axis) {
                let k = choose|k: int| 0 <= k < i && axes@.take(i as int)[k] == axis;
                assert(seen@[axis as int]);
            }
            assert(first_bad_axis(axes@, rank, i as int) == first_bad_axis(axes@, rank, i + 1));
        }
        seen.set(axis, true);
        proof {
            let t = axes@.take(i + 1);
            assert(t =~= axes@.take(i as int).push(axis));
            assert forall|x: int| 0 <= x < rank implies (seen@[x] <==> t.contains(x as usize)) by {
                if x == axis {
                    assert(t[i as int] == axis);
                } else if seen@[x] {
                    let k = choose|k: int| 0 <= k < i && axes@.take(i as int)[k] == x as usize;
                    assert(t[k] == x as usize);
                } else if t.contains(x as usize) {
                    let k = choose|k: int| 0 <= k < t.len() && t[k] == x as usize;
                    assert(axes@.take(i as int)[k] == x as usize);
                }
            }
            assert forall|p: int, q: int| 0 <= p < q < t.len() implies t[p] != t[q] by {
                if q == i {
                    assert(axes@.take(i as int)[p] == t[p]);
                }
            }
        }
        i += 1;
    }
    proof {
        assert(axes@.take(axes@.len() as int) =~= axes@);
    }
    let mut out: Vec<usize> = Vec::new();
    let mut a: usize = 0;
    while a < rank
        invariant
            seen@.len() == rank,
            a <= rank,
            axes_valid(axes@, rank),
            forall|x: int| 0 <= x < rank ==> (seen@[x] <==> axes@.contains(x as usize)),
            strictly_increasing(out@),
            forall|k: int| 0 <= k < out@.len() ==> out@[k] < a,
            forall|x: usize| out@.contains(x) <==> (x < a && axes@.contains(x)),
        decreases rank - a,
    {
        if seen[a] {
            proof {
                assert forall|x: usize| out@.push(a).contains(x) <==> (x < a + 1 && axes@.contains(x)) by {
                    if out@.push(a).contains(x) && x != a {
                        let k = choose|k: int| 0 <= k < out@.push(a).len() && out@.push(a)[k] == x;
                        assert(out@[k] == x);
                    }
                    if x < a && axes@.contains(x) {
                        let k = choose|k: int| 0 <= k < out@.len() && out@[k] == x;
                        assert(out@.push(a)[k] == x);
                    }
                    if x == a {
                        assert(out@.push(a)[out@.len() as int] == a);
                    }
                }
            }
            out.push(a);
        } else {
            proof {
                assert forall|x: usize| out@.contains(x) <==> (x < a + 1 && axes@.contains(x)) by {
                    if x == a && axes@.contains(x) {
                        assert(seen@[a as int]);
                    }
                }
            }
        }
        a += 1;
    }
    proof {
        assert forall|x: usize| out@.contains(x) <==> axes@.contains(x) by {
            if axes@.contains(x) {
                let k = choose|k: int| 0 <= k < axes@.len() && axes@[k] == x;
                assert(axes@[k] < rank);
            }
        }
    }
    Ok(out)
}

/// The dimensions of `shape` whose index is not in `drop`, in order.
pub open spec fn keep_dims(shape: Seq<usize>, drop: Seq<usize>) -> Seq<usize>
    decreases shape.len(),
{
    if shape.len() == 0 {
        Seq::empty()
    } else {
        let p = keep_dims(shape.drop_last(), drop);
        if drop.contains((shape.len() - 1) as usize) {
            p
        } else {
            p.push(shape.last())
        }
    }
}

fn contains_axis(v: &Vec<usize>, x: usize) -> (b: bool)
    ensures
        b == v@.contains(x),
{
    let mut i: usize = 0;
    while i < v.len()
        invariant
            i <= v@.len(),
            forall|k: int| 0 <= k < i ==> v@[k] != x,
        decreases v@.len() - i,
    {
        if v[i] == x {
            return true;
        }
        i += 1;
    }
    false
}

/// The shape left after reducing `shape` over `axes` (all axes when `axes` is empty).
pub fn reduced_shape(shape: &[usize], axes: &[usize]) -> (r: Result<Vec<usize>, Error>)
    ensures
        axes@.len() > 0 && !axes_valid(axes@, shape@.len() as usize) ==> (r matches Err(
            Error::InvalidAxes(m),
        ) && m@ == axes_error_message(axes@, shape@.len() as usize)),
        (axes@.len() == 0 || axes_valid(axes@, shape@.len() as usize)) ==> (r matches Ok(v) && v@
            == keep_dims(shape@, canonical_axes_set(axes@, shape@.len() as usize))),
{
    let canonical = match canonical_axes(axes, shape.len()) {
        Ok(c) => c,
        Err(e) => return Err(e),
    };
    let ghost drop = canonical_axes_set(axes@, shape@.len() as usize);
    assert(forall|x: usize| canonical@.contains(x) <==> drop.contains(x));
    let mut result: Vec<usize> = Vec::new();
    let mut idx: usize = 0;
    while idx < shape.len()
        invariant
            idx <= shape@.len(),
            forall|x: usize| canonical@.contains(x) <==> drop.contains(x),
            result@ == keep_dims(shape@.take(idx as int), drop),
        decreases shape@.len() - idx,
    {
        proof {
            let t = shape@.take(idx + 1);
            assert(t.drop_last() =~= shape@.take(idx as int));
            assert(t.last() == shape@[idx as int]);
        }
        if !contains_axis(&canonical, idx) {
            result.push(shape[idx]);
        }
        idx += 1;
    }
    proof {
        assert(shape@.take(shape@.len() as int) =~= shape@);
    }
    Ok(result)
}


/// The dimensions of `s` at the positions listed in `idx`.
pub open spec fn select_dims(s: Seq<usize>, idx: Seq<usize>) -> Seq<usize> {
    Seq::new(idx.len(), |k: int| s[idx[k] as int])
}

pub proof fn lemma_product_remove(t: Seq<usize>, p: int)
    requires
        0 <= p < t.len(),
    ensures
        dims_product(t) == dims_product(t.remove(p)) * t[p],
    decreases p,
{
    if p == 0 {
        assert(t.remove(0) =~= t.drop_first());
        let a = t[0] as int;
        let b = dims_product(t.drop_first()) as int;
        assert(a * b == b * a) by (nonlinear_arith);
    } else {
        let d = t.drop_first();
        lemma_product_remove(d, p - 1);
        let r = t.remove(p);
        assert(r[0] == t[0]);
        assert(r.drop_first() =~= d.remove(p - 1));
        let a = t[0] as int;
        let b = dims_product(d.remove(p - 1)) as int;
        let c = t[p] as int;
        assert(d[p - 1] == t[p]);
        assert(a * (b * c) == (a * b) * c) by (nonlinear_arith);
    }
}

/// Selecting distinct positions of positive dimensions gives a product no
/// larger than the product of all of them.
pub proof fn lemma_select_product_le(s: Seq<usize>, idx: Seq<usize>)
    requires
        s.len() <= usize::MAX,
        forall|i: int| 0 <= i < s.len() ==> s[i] > 0,
        forall|k: int| 0 <= k < idx.len() ==> idx[k] < s.len(),
        forall|k: int, l: int| 0 <= k < l < idx.len() ==> idx[k] != idx[l],
    ensures
        dims_product(select_dims(s, idx)) <= dims_product(s),
    decreases s.len(),
{
    if s.len() == 0 {
        if idx.len() > 0 {
            assert(idx[0] < s.len());
        }
        assert(select_dims(s, idx) =~= Seq::<usize>::empty());
    } else {
        let n = (s.len() - 1) as usize;
        let dl = s.drop_last();
        assert forall|i: int| 0 <= i < dl.len() implies dl[i] > 0 by {
            assert(dl[i] == s[i]);
        }
        lemma_product_drop_last(s);
        lemma_product_positive(dl);
        if idx.contains(n) {
            let p = choose|p: int| 0 <= p < idx.len() && idx[p] == n;
            let idx2 = idx.remove(p);
            idx.remove_ensures(p);
            assert forall|k: int| 0 <= k < idx2.len() implies idx2[k] < dl.len() by {
                if k < p {
                    assert(idx2[k] == idx[k]);
                    assert(idx[k] != idx[p]);
                } else {
                    assert(idx2[k] == idx[k + 1]);
                    assert(idx[k + 1] != idx[p]);
                }
            }
            assert forall|k: int, l: int| 0 <= k < l < idx2.len() implies idx2[k] != idx2[l] by {
                if l < p {
                } else if k < p {
                    assert(idx2[l] == idx[l + 1]);
                } else {
                    assert(idx2[k] == idx[k + 1]);
                    assert(idx2[l] == idx[l + 1]);
                }
            }
            lemma_select_product_le(dl, idx2);
            let t = select_dims(s, idx);
            lemma_product_remove(t, p);
            t.remove_ensures(p);
            assert(t.remove(p) =~= select_dims(dl, idx2));
            crate::shape::lemma_mul_grows(1, 1);
            assert(dims_product(select_dims(dl, idx2)) * (s[n as int] as nat) <= dims_product(dl)
                * (s[n as int] as nat)) by (nonlinear_arith)
                requires
                    dims_product(select_dims(dl, idx2)) <= dims_product(dl),
            ;
            assert(t[p] == s[n as int]);
        } else {
            assert forall|k: int| 0 <= k < idx.len() implies idx[k] < dl.len() by {
                assert(idx[k] != n);
            }
            lemma_select_product_le(dl, idx);
            assert(select_dims(s, idx) =~= select_dims(dl, idx));
            lemma_mul_grows(s[n as int] as int, dims_product(dl) as int);
        }
    }
}


/// Broadcasting is symmetric: the two shapes broadcast in either order or
/// in neither, and give the same shape.
pub proof fn lemma_broadcast_symmetric(l: Seq<usize>, r: Seq<usize>)
    ensures
        broadcast_compatible(l, r) == broadcast_compatible(r, l),
        broadcast_dims(l, r) == broadcast_dims(r, l),
{
    let n = broadcast_rank(l, r);
    assert(n == broadcast_rank(r, l));
    assert forall|j: int| 0 <= j < n implies #[trigger] broadcast_pair(
        aligned_dim(l, n, j),
        aligned_dim(r, n, j),
    ) == broadcast_pair(aligned_dim(r, n, j), aligned_dim(l, n, j)) by {}
    if broadcast_compatible(l, r) {
        assert forall|j: int| 0 <= j < n implies (#[trigger] broadcast_pair(
            aligned_dim(r, n, j),
            aligned_dim(l, n, j),
        )) is Some by {
            assert(broadcast_pair(aligned_dim(l, n, j), aligned_dim(r, n, j)) is Some);
        }
    }
    if broadcast_compatible(r, l) {
        assert forall|j: int| 0 <= j < n implies (#[trigger] broadcast_pair(
            aligned_dim(l, n, j),
            aligned_dim(r, n, j),
        )) is Some by {
            assert(broadcast_pair(aligned_dim(r, n, j), aligned_dim(l, n, j)) is Some);
        }
    }
    assert(broadcast_dims(l, r) =~= broadcast_dims(r, l));
}

/// A shape broadcasts with itself, and the broadcast is the shape.
pub proof fn lemma_broadcast_with_self(s: Seq<usize>)
    ensures
        broadcast_compatible(s, s),
        broadcast_dims(s, s) == s,
{
    let n = broadcast_rank(s, s);
    assert forall|j: int| 0 <= j < n implies (#[trigger] broadcast_pair(
        aligned_dim(s, n, j),
        aligned_dim(s, n, j),
    )) is Some by {}
    assert(broadcast_dims(s, s) =~= s);
}

/// A scalar, the empty shape, broadcasts with every shape and leaves it unchanged.
pub proof fn lemma_broadcast_with_scalar(s: Seq<usize>)
    ensures
        broadcast_compatible(s, Seq::<usize>::empty()),
        broadcast_dims(s, Seq::<usize>::empty()) == s,
{
    let e = Seq::<usize>::empty();
    let n = broadcast_rank(s, e);
    assert forall|j: int| 0 <= j < n implies (#[trigger] broadcast_pair(
        aligned_dim(s, n, j),
        aligned_dim(e, n, j),
    )) is Some by {}
    assert(broadcast_dims(s, e) =~= s);
}

proof fn lemma_keep_none(shape: Seq<usize>, drop: Seq<usize>)
    requires
        forall|i: usize| i < shape.len() ==> #[trigger] drop.contains(i),
    ensures
        keep_dims(shape, drop) == Seq::<usize>::empty(),
    decreases shape.len(),
{
    if shape.len() > 0 {
        let p = shape.drop_last();
        assert(drop.contains((shape.len() - 1) as usize));
        lemma_keep_none(p, drop);
    }
}

/// Reducing over every axis, which an empty list of axes asks for, leaves
/// the shape of a scalar.
pub proof fn lemma_reduce_all_is_scalar(shape: Seq<usize>)
    requires
        shape.len() <= usize::MAX,
    ensures
        keep_dims(shape, canonical_axes_set(Seq::<usize>::empty(), shape.len() as usize))
            == Seq::<usize>::empty(),
{
    let all = all_axes(shape.len() as usize);
    assert forall|i: usize| i < shape.len() implies #[trigger] all.contains(i) by {
        assert(all[i as int] == i);
    }
    lemma_keep_none(shape, all);
}

proof fn lemma_index_filter_range(idx: Seq<int>, pred: spec_fn(int) -> bool)
    requires
        forall|i: int| 0 <= i < idx.len() ==> idx[i] == i,
    ensures
        forall|k: int| 0 <= k < idx.filter(pred).len() ==> 0 <= #[trigger] idx.filter(pred)[k] < idx.len(),
    decreases idx.len(),
{
    reveal(Seq::filter);
    if idx.len() > 0 {
        let d = idx.drop_last();
        lemma_index_filter_range(d, pred);
        let f = idx.filter(pred);
        let fd = d.filter(pred);
        assert forall|k: int| 0 <= k < f.len() implies 0 <= #[trigger] f[k] < idx.len() by {
            if pred(idx.last()) {
                assert(f == fd.push(idx.last()));
                if k < fd.len() {
                    assert(f[k] == fd[k]);
                }
            } else {
                assert(f == fd);
            }
        }
    }
}

/// Reducing keeps, in their order, exactly the dimensions whose index is
/// not among the dropped axes: `keep_dims(shape, drop)` is `shape[i]` for
/// each index `i` not in `drop`, from the first to the last.
pub proof fn lemma_keep_dims_filters(shape: Seq<usize>, drop: Seq<usize>)
    ensures
        keep_dims(shape, drop) == Seq::new(shape.len(), |i: int| i).filter(
            |i: int| !drop.contains(i as usize),
        ).map_values(|i: int| shape[i]),
    decreases shape.len(),
{
    let n = shape.len() as int;
    let pred = |i: int| !drop.contains(i as usize);
    let idx = Seq::new(shape.len(), |i: int| i);
    if n == 0 {
        assert(idx.filter(pred) =~= Seq::<int>::empty());
        assert(keep_dims(shape, drop) =~= idx.filter(pred).map_values(|i: int| shape[i]));
    } else {
        let p = shape.drop_last();
        lemma_keep_dims_filters(p, drop);
        let idx1 = Seq::new(p.len(), |i: int| i);
        assert(idx.drop_last() =~= idx1);
        assert(idx.last() == n - 1);
        let f1 = idx1.filter(pred);
        lemma_index_filter_range(idx1, pred);
        reveal(Seq::filter);
        assert(f1.map_values(|i: int| p[i]) =~= f1.map_values(|i: int| shape[i]));
        if pred(n - 1) {
            assert(idx.filter(pred) == f1.push(n - 1));
            assert(f1.push(n - 1).map_values(|i: int| shape[i]) =~= f1.map_values(
                |i: int| shape[i],
            ).push(shape.last()));
        } else {
            assert(idx.filter(pred) == f1);
        }
    }
}

/// What `reduced_shape` gives for a non-empty list of axes: the dimensions
/// `shape[i]` whose index `i` is not listed, in order. (For an empty list,
/// every axis is reduced: `lemma_reduce_all_is_scalar`.)
pub proof fn lemma_reduced_dims(shape: Seq<usize>, axes: Seq<usize>)
    requires
        axes.len() > 0,
        shape.len() <= usize::MAX,
    ensures
        keep_dims(shape, canonical_axes_set(axes, shape.len() as usize)) == Seq::new(
            shape.len(),
            |i: int| i,
        ).filter(|i: int| !axes.contains(i as usize)).map_values(|i: int| shape[i]),
{
    lemma_keep_dims_filters(shape, axes);
}

/// Broadcasting aligns the shapes from the right: the result has the rank
/// of the longer shape, and the dimension `k` places from the end of the
/// result is, for each shape that has a dimension `k` places from its end,
/// either that dimension or a dimension of 1 stretched to it; where a shape
/// has no such dimension, the other shape's dimension is taken.
pub proof fn lemma_broadcast_aligns_right(l: Seq<usize>, r: Seq<usize>, k: int)
    requires
        broadcast_compatible(l, r),
        0 <= k < broadcast_dims(l, r).len(),
    ensures
        broadcast_dims(l, r).len() == if l.len() >= r.len() {
            l.len()
        } else {
            r.len()
        },
        ({
            let n = broadcast_dims(l, r).len() as int;
            let d = broadcast_dims(l, r)[n - 1 - k];
            &&& k < l.len() ==> (l[l.len() - 1 - k] == d || l[l.len() - 1 - k] == 1)
            &&& k < r.len() ==> (r[r.len() - 1 - k] == d || r[r.len() - 1 - k] == 1)
            &&& k < l.len() && k < r.len() ==> (d == l[l.len() - 1 - k] || d == r[r.len() - 1 - k])
            &&& k >= l.len() ==> d == r[r.len() - 1 - k]
            &&& k >= r.len() ==> d == l[l.len() - 1 - k]
        }),
{
    let n = broadcast_rank(l, r);
    let j = n - 1 - k;
    assert(broadcast_pair(aligned_dim(l, n, j), aligned_dim(r, n, j)) is Some);
}

} // verus!

//! Strided memory layouts: shape, strides in elements and a byte offset.
use vstd::prelude::*;
use tinyvec::ArrayVec;
use crate::dtype::DType;
use crate::error::Error;
use crate::shape::{
    ConcreteShape, broadcast_compatible, broadcast_dims, aligned_dim, broadcast_pair, first_bad_dim,
    clamp_to_usize, broadcast_shapes, select_dims, axes_valid, first_bad_axis, valid_dims, suffix_product, is_contiguous_strides, dims_product,
    lemma_valid_facts, lemma_suffix_product_step, lemma_suffix_product_bound, lemma_mul_grows,
};
use crate::small_vec::{MAX_RANK, strides_contents, strides_as_slice, strides_from_slice};
use crate::text::{decimal, decimal_text};

verus! {

/// Whether a layout is row-major contiguous.
#[derive(Clone, Copy, Debug, PartialEq, Eq, Structural)]
pub enum LayoutKind {
    Contiguous,
    General,
}

/// One entry of an indexing expression: pick one position of a dimension,
/// or keep the positions `start, start + step, ...` below `end`.
#[derive(Clone, Copy, Debug, PartialEq, Eq, Structural)]
pub enum TensorIndexer {
    Select(usize),
    Slice { start: usize, end: usize, step: usize },
}

/// The kind that a shape and its strides have.
pub open spec fn kind_of(shape: Seq<usize>, strides: Seq<isize>) -> LayoutKind {
    if is_contiguous_strides(shape, strides) {
        LayoutKind::Contiguous
    } else {
        LayoutKind::General
    }
}

/// The mathematical content of a layout.
pub ghost struct LayoutView {
    pub shape: Seq<usize>,
    pub strides: Seq<isize>,
    pub offset_bytes: usize,
    pub kind: LayoutKind,
}

/// A description of where each element of a tensor lives in a buffer:
/// element `(i_0, ..., i_n)` starts at byte
/// `offset_bytes + (i_0 * strides[0] + ... + i_n * strides[n]) * element size`.
#[derive(Debug)]
pub struct Layout {
    shape: ConcreteShape,
    strides: ArrayVec<[isize; MAX_RANK]>,
    offset_bytes: usize,
    kind: LayoutKind,
}

impl View for Layout {
    type V = LayoutView;

    closed spec fn view(&self) -> LayoutView {
        LayoutView {
            shape: self.shape@,
            strides: strides_contents(self.strides),
            offset_bytes: self.offset_bytes,
            kind: self.kind,
        }
    }
}


/// The value lies in the range of `isize`.
pub open spec fn in_isize(x: int) -> bool {
    isize::MIN <= x <= isize::MAX
}

/// The indexer that keeps a whole dimension.
pub open spec fn full_slice(dim: usize) -> TensorIndexer {
    TensorIndexer::Slice { start: 0, end: dim, step: 1 }
}

/// The indexer applied to dimension `i`: the given one, or the whole dimension.
pub open spec fn indexer_for(ixs: Seq<TensorIndexer>, i: int, dim: usize) -> TensorIndexer {
    if i < ixs.len() {
        ixs[i]
    } else {
        full_slice(dim)
    }
}

/// The number of positions `start, start + step, ...` below `end`.
pub open spec fn slice_len(start: usize, end: usize, step: usize) -> int {
    if start >= end {
        0
    } else if (end - start) % (step as int) == 0 {
        (end - start) / (step as int)
    } else {
        (end - start) / (step as int) + 1
    }
}

/// One indexer applied to a dimension of size `dim` and stride `stride`:
/// the change of offset, in elements, and for a slice the new size and
/// stride of the dimension; `None` when the indexer is rejected.
pub open spec fn index_step(ix: TensorIndexer, dim: usize, stride: isize) -> Option<
    (int, Option<(usize, isize)>),
> {
    match ix {
        TensorIndexer::Select(idx) => if idx >= dim || !in_isize(stride * idx) {
            None
        } else {
            Some((stride * idx, None))
        },
        TensorIndexer::Slice { start, end, step } => if step == 0 || start > dim || end > dim
            || !in_isize(stride * start) || step > isize::MAX || !in_isize(stride * step) {
            None
        } else {
            Some((stride * start, Some((slice_len(start, end, step) as usize, (stride * step) as isize))))
        },
    }
}

/// The new dimensions, strides and byte offset after indexing the first `i`
/// dimensions, or `None` when one of them is rejected or an offset leaves
/// the range of `isize` or becomes negative.
pub open spec fn indexing_state(
    shape: Seq<usize>,
    strides: Seq<isize>,
    offset: int,
    ixs: Seq<TensorIndexer>,
    es: int,
    i: nat,
) -> Option<(Seq<usize>, Seq<isize>, int)>
    decreases i,
{
    if i == 0 {
        Some((Seq::empty(), Seq::empty(), offset))
    } else {
        match indexing_state(shape, strides, offset, ixs, es, (i - 1) as nat) {
            None => None,
            Some((sh, st, off)) => {
                let k = i - 1;
                match index_step(indexer_for(ixs, k, shape[k]), shape[k], strides[k]) {
                    None => None,
                    Some((delta, nd)) => {
                        let bytes = delta * es;
                        if !in_isize(bytes) || off > isize::MAX || !in_isize(off + bytes) || off
                            + bytes < 0 {
                            None
                        } else {
                            match nd {
                                None => Some((sh, st, off + bytes)),
                                Some((len, ns)) => Some((sh.push(len), st.push(ns), off + bytes)),
                            }
                        }
                    },
                }
            },
        }
    }
}

/// The layout that indexing `v` with `ixs` (elements of `es` bytes) gives,
/// or `None` when the indexing is rejected.
pub open spec fn indexing_spec(v: LayoutView, ixs: Seq<TensorIndexer>, es: int) -> Option<
    LayoutView,
> {
    if ixs.len() > v.shape.len() {
        None
    } else {
        match indexing_state(v.shape, v.strides, v.offset_bytes as int, ixs, es, v.shape.len()) {
            None => None,
            Some((sh, st, off)) => if exists|k: int| 0 <= k < sh.len() && sh[k] == 0 {
                None
            } else {
                Some(
                    LayoutView {
                        shape: sh,
                        strides: st,
                        offset_bytes: off as usize,
                        kind: kind_of(sh, st),
                    },
                )
            },
        }
    }
}


/// The indexers that slice dimension `axis` and keep every other dimension whole.
pub open spec fn slice_indexers(
    shape: Seq<usize>,
    axis: usize,
    start: usize,
    end: usize,
    step: usize,
) -> Seq<TensorIndexer> {
    Seq::new(
        shape.len(),
        |i: int|
            if i == axis {
                TensorIndexer::Slice { start, end, step }
            } else {
                full_slice(shape[i])
            },
    )
}

/// The layout whose dimension `k` is dimension `axes[k]` of `v`.
pub open spec fn permute_view(v: LayoutView, axes: Seq<usize>) -> LayoutView {
    let sh = select_dims(v.shape, axes);
    let st = Seq::new(axes.len(), |k: int| v.strides[axes[k] as int]);
    LayoutView { shape: sh, strides: st, offset_bytes: v.offset_bytes, kind: kind_of(sh, st) }
}

/// `l` is the layout that reshaping `v` to `new_shape` gives: the row-major
/// layout of `new_shape` at the offset of `v`.
pub open spec fn reshape_result(v: LayoutView, new_shape: Seq<usize>, l: LayoutView) -> bool {
    &&& l.shape == new_shape
    &&& is_contiguous_strides(new_shape, l.strides)
    &&& l.offset_bytes == v.offset_bytes
    &&& l.kind == LayoutKind::Contiguous
}

/// The axes `0, ..., rank - 1` with `a` and `b` exchanged.
pub open spec fn swapped_axes(rank: usize, a: usize, b: usize) -> Seq<usize> {
    Seq::new(
        rank as nat,
        |k: int|
            if k == a {
                b
            } else if k == b {
                a
            } else {
                k as usize
            },
    )
}


/// The size and stride of the dimension of `v` aligned, from the right, with
/// position `j` of an `n`-dimensional shape; a missing dimension counts as
/// size 1, stride 0.
pub open spec fn aligned_layout_dim(v: LayoutView, n: int, j: int) -> (usize, isize) {
    let k = n - 1 - j;
    let m = v.shape.len();
    if k < m {
        (v.shape[m - 1 - k], v.strides[m - 1 - k])
    } else {
        (1usize, 0isize)
    }
}

/// The stride that position `j` of an `n`-dimensional broadcast of `v` gets
/// when its size there is `dim`, or `None` when `v` cannot stretch to it.
pub open spec fn broadcast_stride(v: LayoutView, n: int, j: int, dim: usize) -> Option<isize> {
    let (d, st) = aligned_layout_dim(v, n, j);
    if d == dim {
        Some(st)
    } else if d == 1 {
        Some(0isize)
    } else {
        None
    }
}

/// The layout that broadcasting `v` to the shape `target` gives, or `None`.
pub open spec fn broadcast_view(v: LayoutView, target: Seq<usize>) -> Option<LayoutView> {
    let n = target.len() as int;
    if forall|j: int| 0 <= j < n ==> (#[trigger] broadcast_stride(v, n, j, target[j])) is Some {
        let st = Seq::new(target.len(), |j: int| broadcast_stride(v, n, j, target[j]).unwrap());
        Some(
            LayoutView {
                shape: target,
                strides: st,
                offset_bytes: v.offset_bytes,
                kind: kind_of(target, st),
            },
        )
    } else {
        None
    }
}

/// Broadcasting a layout to the broadcast of its shape with another shape succeeds.
pub proof fn lemma_broadcast_view_some(v: LayoutView, other: Seq<usize>)
    requires
        broadcast_compatible(v.shape, other),
    ensures
        broadcast_view(v, broadcast_dims(v.shape, other)) is Some,
{
    let dims = broadcast_dims(v.shape, other);
    let n = dims.len() as int;
    assert forall|j: int| 0 <= j < n implies (#[trigger] broadcast_stride(v, n, j, dims[j])) is Some by {
        assert(broadcast_pair(aligned_dim(v.shape, n, j), aligned_dim(other, n, j)) is Some);
    }
}

/// Broadcasting a layout to the broadcast of its shape with another shape succeeds.
pub proof fn lemma_broadcast_view_some_rhs(v: LayoutView, other: Seq<usize>)
    requires
        broadcast_compatible(other, v.shape),
    ensures
        broadcast_view(v, broadcast_dims(other, v.shape)) is Some,
{
    let dims = broadcast_dims(other, v.shape);
    let n = dims.len() as int;
    assert forall|j: int| 0 <= j < n implies (#[trigger] broadcast_stride(v, n, j, dims[j])) is Some by {
        assert(broadcast_pair(aligned_dim(other, n, j), aligned_dim(v.shape, n, j)) is Some);
    }
}


/// `sum of strides[i] * (shape[i] - 1)` over the dimensions from `d` on: how far,
/// in elements, the last element lies from the first.
pub open spec fn extent_from(shape: Seq<usize>, strides: Seq<isize>, d: int) -> int
    decreases shape.len() - d,
{
    if d < 0 || d >= shape.len() {
        0
    } else {
        strides[d] * (shape[d] - 1) + extent_from(shape, strides, d + 1)
    }
}

/// No stride is negative.
pub open spec fn strides_nonneg(strides: Seq<isize>) -> bool {
    forall|i: int| 0 <= i < strides.len() ==> strides[i] >= 0
}

/// The last byte that a layout with elements of `es` bytes can touch, or
/// `None` when a stride is negative or the byte offsets leave the range of `isize`.
pub open spec fn max_offset_spec(v: LayoutView, es: int) -> Option<int> {
    let last = v.offset_bytes + es * extent_from(v.shape, v.strides, 0) + es - 1;
    if v.offset_bytes <= isize::MAX && strides_nonneg(v.strides) && last <= isize::MAX {
        Some(last)
    } else {
        None
    }
}

/// The byte offset reached after the first `i` entries of `indices`, or
/// `None` when an index is out of bounds or an offset leaves the range of `isize`.
pub open spec fn index_offset_state(
    shape: Seq<usize>,
    strides: Seq<isize>,
    offset: int,
    indices: Seq<usize>,
    es: int,
    i: nat,
) -> Option<int>
    decreases i,
{
    if i == 0 {
        if offset > isize::MAX {
            None
        } else {
            Some(offset)
        }
    } else {
        match index_offset_state(shape, strides, offset, indices, es, (i - 1) as nat) {
            None => None,
            Some(o) => {
                let k = i - 1;
                let delta = strides[k] * indices[k];
                if indices[k] >= shape[k] || !in_isize(delta) || !in_isize(delta * es) || !in_isize(
                    o + delta * es,
                ) {
                    None
                } else {
                    Some(o + delta * es)
                }
            },
        }
    }
}

/// The byte offset of the element at `indices`, or `None`.
pub open spec fn index_offset_spec(v: LayoutView, indices: Seq<usize>, es: int) -> Option<int> {
    if indices.len() != v.shape.len() {
        None
    } else {
        match index_offset_state(
            v.shape,
            v.strides,
            v.offset_bytes as int,
            indices,
            es,
            indices.len(),
        ) {
            Some(o) => if o >= 0 {
                Some(o)
            } else {
                None
            },
            None => None,
        }
    }
}

/// The size of dimension `d`, or 0 past the last dimension.
pub open spec fn dim_or_zero(shape: Seq<usize>, d: int) -> nat {
    if 0 <= d < shape.len() {
        shape[d] as nat
    } else {
        0
    }
}

/// The byte offsets, in row-major order, of the elements whose index in
/// dimension `d` is below `j`, with the dimensions before `d` fixed at
/// the position whose offset is `base`.
pub open spec fn offsets_seq(
    shape: Seq<usize>,
    strides: Seq<isize>,
    base: int,
    es: int,
    d: nat,
    j: nat,
) -> Seq<int>
    decreases shape.len() - d, j,
{
    if d >= shape.len() {
        seq![base]
    } else if j == 0 {
        Seq::empty()
    } else {
        offsets_seq(shape, strides, base, es, d, (j - 1) as nat) + offsets_seq(
            shape,
            strides,
            base + (j - 1) * strides[d as int] * es,
            es,
            d + 1,
            dim_or_zero(shape, d + 1 as int),
        )
    }
}

/// The byte offsets of all elements of `v`, in row-major order.
pub open spec fn element_offsets(v: LayoutView, es: int) -> Seq<int> {
    offsets_seq(v.shape, v.strides, v.offset_bytes as int, es, 0, dim_or_zero(v.shape, 0))
}

/// The offsets as `usize` values.
pub open spec fn as_usize_seq(s: Seq<int>) -> Seq<usize> {
    s.map_values(|x: int| x as usize)
}

proof fn lemma_extent_nonneg(shape: Seq<usize>, strides: Seq<isize>, d: int)
    requires
        0 <= d,
        strides.len() == shape.len(),
        strides_nonneg(strides),
        forall|i: int| 0 <= i < shape.len() ==> shape[i] > 0,
    ensures
        extent_from(shape, strides, d) >= 0,
    decreases shape.len() - d,
{
    if d < shape.len() {
        lemma_extent_nonneg(shape, strides, d + 1);
        let a = strides[d] as int;
        let b = shape[d] - 1;
        assert(a * b >= 0) by (nonlinear_arith)
            requires
                a >= 0,
                b >= 0,
        ;
    }
}

/// For row-major strides the extent from `d` on is the number of elements
/// of dimensions `d..` minus one.
pub proof fn lemma_contiguous_extent(shape: Seq<usize>, strides: Seq<isize>, d: int)
    requires
        0 <= d <= shape.len(),
        is_contiguous_strides(shape, strides),
    ensures
        extent_from(shape, strides, d) == suffix_product(shape, d) - 1,
    decreases shape.len() - d,
{
    if d == shape.len() {
        assert(shape.subrange(d, shape.len() as int) =~= Seq::<usize>::empty());
    } else {
        lemma_contiguous_extent(shape, strides, d + 1);
        lemma_suffix_product_step(shape, d);
        let p = suffix_product(shape, d + 1) as int;
        let x = shape[d] as int;
        assert(p * (x - 1) + (p - 1) == x * p - 1) by (nonlinear_arith);
    }
}

/// Every prefix of `s` has a product of at most `b`.
pub open spec fn prefix_products_bounded(s: Seq<usize>, b: nat) -> bool {
    forall|n: int| 0 <= n <= s.len() ==> #[trigger] dims_product(s.take(n)) <= b
}

proof fn lemma_first_bad_bounds(s: Seq<usize>)
    ensures
        first_bad_dim(s) matches Some(j) ==> 0 <= j < s.len(),
    decreases s.len(),
{
    if s.len() > 0 {
        lemma_first_bad_bounds(s.drop_last());
    }
}

proof fn lemma_offset_state_fail(
    shape: Seq<usize>,
    strides: Seq<isize>,
    offset: int,
    indices: Seq<usize>,
    es: int,
    i: nat,
    n: nat,
)
    requires
        index_offset_state(shape, strides, offset, indices, es, i) is None,
        i <= n,
    ensures
        index_offset_state(shape, strides, offset, indices, es, n) is None,
    decreases n - i,
{
    if i < n {
        lemma_offset_state_fail(shape, strides, offset, indices, es, i, (n - 1) as nat);
    }
}

proof fn lemma_dim_le_product(s: Seq<usize>, i: int)
    requires
        0 <= i < s.len(),
        forall|k: int| 0 <= k < s.len() ==> s[k] > 0,
    ensures
        s[i] <= dims_product(s),
{
    lemma_prefix_product_le(s, i + 1);
    assert(s.take(i + 1) =~= s.take(i).push(s[i]));
    crate::shape::lemma_product_push(s.take(i), s[i]);
    crate::shape::lemma_product_positive(s.take(i));
    lemma_mul_grows(dims_product(s.take(i)) as int, s[i] as int);
}

/// When the bytes accumulated so far plus the next term exceed `isize::MAX`,
/// the whole last byte does too (for non-negative strides).
proof fn lemma_total_exceeds(off: int, es: int, e0: int, ei: int, term: int, enext: int, nonneg: bool)
    requires
        1 <= es,
        term >= 0,
        ei == term + enext,
        nonneg ==> enext >= 0,
        !(off + es * (e0 - ei) + es * term <= isize::MAX) || !(term <= isize::MAX) || !(es * term
            <= isize::MAX),
        off >= 0,
        e0 - ei >= 0,
    ensures
        nonneg ==> off + es * e0 + es - 1 > isize::MAX,
{
    if nonneg {
        assert(es * e0 == es * (e0 - ei) + es * term + es * enext) by (nonlinear_arith)
            requires
                ei == term + enext,
        ;
        assert(es * enext >= 0) by (nonlinear_arith)
            requires
                es >= 1,
                enext >= 0,
        ;
        assert(es * term >= term) by (nonlinear_arith)
            requires
                es >= 1,
                term >= 0,
        ;
        assert(es * (e0 - ei) >= 0) by (nonlinear_arith)
            requires
                es >= 1,
                e0 - ei >= 0,
        ;
    }
}

proof fn lemma_state_fail(
    shape: Seq<usize>,
    strides: Seq<isize>,
    offset: int,
    ixs: Seq<TensorIndexer>,
    es: int,
    i: nat,
    n: nat,
)
    requires
        indexing_state(shape, strides, offset, ixs, es, i) is None,
        i <= n,
    ensures
        indexing_state(shape, strides, offset, ixs, es, n) is None,
    decreases n - i,
{
    if i < n {
        lemma_state_fail(shape, strides, offset, ixs, es, i, (n - 1) as nat);
    }
}

proof fn lemma_mul_le(a: int, b: int, c: int, d: int)
    requires
        0 <= a <= c,
        0 <= b <= d,
    ensures
        a * b <= c * d,
{
    assert(a * b <= c * d) by (nonlinear_arith)
        requires
            0 <= a <= c,
            0 <= b <= d,
    ;
}

proof fn lemma_bounded_push(s: Seq<usize>, b: nat, x: usize, d: usize)
    requires
        prefix_products_bounded(s, b),
        x <= d,
        d >= 1,
    ensures
        prefix_products_bounded(s.push(x), b * (d as nat)),
{
    let t = s.push(x);
    lemma_mul_grows(d as int, b as int);
    assert forall|n: int| 0 <= n <= t.len() implies #[trigger] dims_product(t.take(n)) <= b * d by {
        if n <= s.len() {
            assert(t.take(n) =~= s.take(n));
        } else {
            assert(t.take(n) =~= t);
            assert(s.take(s.len() as int) =~= s);
            crate::shape::lemma_product_push(s, x);
            lemma_mul_le(dims_product(s) as int, x as int, b as int, d as int);
        }
    }
}

proof fn lemma_bounded_first_bad(s: Seq<usize>)
    requires
        prefix_products_bounded(s, crate::shape::MAX_ELEMENTS as nat),
    ensures
        crate::shape::first_bad_dim(s) is None <==> forall|k: int| 0 <= k < s.len() ==> s[k] > 0,
        crate::shape::first_bad_dim(s) matches Some(j) ==> 0 <= j < s.len() && s[j] == 0,
    decreases s.len(),
{
    if s.len() > 0 {
        let p = s.drop_last();
        assert forall|n: int| 0 <= n <= p.len() implies #[trigger] dims_product(p.take(n))
            <= crate::shape::MAX_ELEMENTS as nat by {
            assert(p.take(n) =~= s.take(n));
        }
        lemma_bounded_first_bad(p);
        assert(s.take(s.len() as int) =~= s);
        assert(dims_product(s.take(s.len() as int)) <= crate::shape::MAX_ELEMENTS as nat);
        if forall|k: int| 0 <= k < s.len() ==> s[k] > 0 {
            assert forall|k: int| 0 <= k < p.len() implies p[k] > 0 by {
                assert(p[k] == s[k]);
            }
        }
        if crate::shape::first_bad_dim(p) is None && s.last() > 0 {
            assert forall|k: int| 0 <= k < s.len() implies s[k] > 0 by {
                if k < p.len() {
                    assert(p[k] == s[k]);
                }
            }
        }
        match crate::shape::first_bad_dim(p) {
            Some(j) => {
                assert(p[j] == s[j]);
            },
            None => {},
        }
    }
}

proof fn lemma_slice_len_le(start: usize, end: usize, step: usize)
    requires
        step >= 1,
    ensures
        0 <= slice_len(start, end, step),
        start < end ==> slice_len(start, end, step) <= end - start,
{
    if start < end {
        let span = (end - start) as int;
        let st = step as int;
        assert(span / st <= span && span / st >= 0 && (span % st != 0 ==> span / st + 1 <= span))
            by (nonlinear_arith)
            requires
                span >= 1,
                st >= 1,
        {
            assert(span == st * (span / st) + span % st);
            assert(0 <= span % st < st);
            if span % st != 0 {
                assert(st >= 2);
                if span / st >= 1 {
                    assert(st * (span / st) >= 2 * (span / st));
                }
            }
        }
    }
}

/// A layout view that a `Layout` value can have.
pub open spec fn layout_wf(v: LayoutView) -> bool {
    &&& valid_dims(v.shape)
    &&& v.strides.len() == v.shape.len()
    &&& v.kind == kind_of(v.shape, v.strides)
}

impl Clone for Layout {
    fn clone(&self) -> (r: Self)
        ensures
            r@ == self@,
    {
        proof {
            use_type_invariant(self);
        }
        Layout {
            shape: self.shape.clone(),
            strides: self.strides,
            offset_bytes: self.offset_bytes,
            kind: self.kind,
        }
    }
}

impl Layout {
    #[verifier::type_invariant]
    closed spec fn layout_invariant(self) -> bool {
        layout_wf(self@)
    }

    /// Every layout satisfies `layout_wf`.
    pub fn check_wf(&self)
        ensures
            layout_wf(self@),
    {
        proof {
            use_type_invariant(self);
        }
    }

    /// A row-major layout of `shape` starting at byte 0.
    pub fn contiguous(shape: ConcreteShape) -> (r: Self)
        ensures
            r@ == (LayoutView {
                shape: shape@,
                strides: r@.strides,
                offset_bytes: 0,
                kind: LayoutKind::Contiguous,
            }),
            is_contiguous_strides(shape@, r@.strides),
    {
        let strides = shape.contiguous_strides();
        Self::new_unchecked(shape, strides, 0)
    }

    /// A row-major layout of `shape` starting at byte `offset_bytes`.
    pub fn contiguous_with_offset(shape: ConcreteShape, offset_bytes: usize) -> (r: Self)
        ensures
            r@ == (LayoutView {
                shape: shape@,
                strides: r@.strides,
                offset_bytes,
                kind: LayoutKind::Contiguous,
            }),
            is_contiguous_strides(shape@, r@.strides),
    {
        let strides = shape.contiguous_strides();
        Self::new_unchecked(shape, strides, offset_bytes)
    }

    /// A layout of `shape` with the given strides; the number of strides must
    /// equal the rank.
    pub fn with_strides(shape: ConcreteShape, strides: &[isize], offset_bytes: usize) -> (r: Result<
        Self,
        Error,
    >)
        ensures
            strides@.len() != shape@.len() ==> (r matches Err(Error::InvalidShape(m)) && m@
                == "strides rank must match shape rank"@),
            strides@.len() == shape@.len() ==> (r matches Ok(l) && l@ == (LayoutView {
                shape: shape@,
                strides: strides@,
                offset_bytes,
                kind: kind_of(shape@, strides@),
            })),
    {
        if shape.rank() != strides.len() {
            return Err(Error::invalid_shape("strides rank must match shape rank"));
        }
        let stride_store = strides_from_slice(strides);
        Ok(Self::new_unchecked(shape, stride_store, offset_bytes))
    }

    /// The dimensions.
    pub fn shape(&self) -> (s: &[usize])
        ensures
            s@ == self@.shape,
    {
        self.shape.as_slice()
    }

    /// The shape.
    pub fn concrete_shape(&self) -> (s: &ConcreteShape)
        ensures
            s@ == self@.shape,
    {
        &self.shape
    }

    /// The strides, in elements.
    pub fn strides(&self) -> (s: &[isize])
        ensures
            s@ == self@.strides,
    {
        strides_as_slice(&self.strides)
    }

    /// The byte offset of the first element.
    pub fn offset_bytes(&self) -> (o: usize)
        ensures
            o == self@.offset_bytes,
    {
        self.offset_bytes
    }

    /// Whether the layout is row-major contiguous.
    pub fn kind(&self) -> (k: LayoutKind)
        ensures
            k == self@.kind,
    {
        self.kind
    }

    /// The number of elements.
    pub fn num_elements(&self) -> (n: usize)
        ensures
            n == dims_product(self@.shape),
    {
        self.shape.num_elements()
    }

    /// Whether the strides are the row-major strides of the shape.
    pub fn is_contiguous(&self) -> (b: bool)
        ensures
            b == (self@.kind == LayoutKind::Contiguous),
            b == is_contiguous_strides(self@.shape, self@.strides),
    {
        proof {
            use_type_invariant(self);
        }
        match self.kind {
            LayoutKind::Contiguous => true,
            LayoutKind::General => false,
        }
    }


    /// Applies one indexer per leading dimension (missing ones keep their
    /// whole dimension): a selection drops the dimension, a slice keeps a
    /// strided range of it. Offsets are in bytes of `dtype` elements.
    pub fn perform_indexing(&self, indexers: &[TensorIndexer], dtype: DType) -> (r: Result<
        Self,
        Error,
    >)
        ensures
            match indexing_spec(self@, indexers@, dtype.size_spec() as int) {
                None => r matches Err(Error::InvalidShape(_)),
                Some(v) => r matches Ok(l) && l@ == v,
            },
            indexers@.len() > self@.shape.len() ==> (r matches Err(Error::InvalidShape(m)) && m@
                == "too many indices: expected "@ + decimal(self@.shape.len()) + ", got "@
                + decimal(indexers@.len())),
    {
        proof {
            use_type_invariant(self);
            lemma_valid_facts(self@.shape);
        }
        let rank = self.shape.rank();
        if indexers.len() > rank {
            let mut msg = String::from_str("too many indices: expected ");
            msg.append(decimal_text(rank).as_str());
            msg.append(", got ");
            msg.append(decimal_text(indexers.len()).as_str());
            return Err(Error::InvalidShape(msg));
        }
        let shape = self.shape();
        let strides = self.strides();
        let ghost es = dtype.size_spec() as int;
        let ghost ixs = indexers@;
        let ghost off0 = self.offset_bytes as int;
        let mut new_shape: Vec<usize> = Vec::new();
        let mut new_strides = crate::small_vec::strides_new();
        let mut current_offset_bytes: usize = self.offset_bytes;
        let elem_size = dtype.size_in_bytes() as isize;
        let mut i: usize = 0;
        while i < rank
            invariant
                rank == shape@.len() == strides@.len() <= MAX_RANK,
                shape@ == self@.shape,
                strides@ == self@.strides,
                ixs == indexers@,
                es == dtype.size_spec(),
                elem_size == es,
                1 <= es <= 8,
                off0 == self@.offset_bytes,
                i <= rank,
                indexers@.len() <= rank,
                forall|k: int| 0 <= k < shape@.len() ==> shape@[k] > 0,
                dims_product(shape@) <= crate::shape::MAX_ELEMENTS,
                new_shape@.len() <= i,
                strides_contents(new_strides).len() == new_shape@.len(),
                indexing_state(shape@, strides@, off0, ixs, es, i as nat) == Some(
                    (new_shape@, strides_contents(new_strides), current_offset_bytes as int),
                ),
                prefix_products_bounded(new_shape@, dims_product(shape@.take(i as int))),
            decreases rank - i,
        {
            let dim = shape[i];
            let stride = strides[i];
            let indexer = if i < indexers.len() {
                indexers[i]
            } else {
                TensorIndexer::Slice { start: 0, end: dim, step: 1 }
            };
            assert(indexer == indexer_for(ixs, i as int, dim));
            proof {
                crate::shape::lemma_suffix_product_bound(shape@, 0);
                assert(shape@.subrange(0, shape@.len() as int) =~= shape@);
                assert(shape@.take(i + 1) =~= shape@.take(i as int).push(dim));
                crate::shape::lemma_product_push(shape@.take(i as int), dim);
                lemma_prefix_product_le(shape@, i as int + 1);
                crate::shape::lemma_product_positive(shape@.take(i as int));
                lemma_mul_grows(dims_product(shape@.take(i as int)) as int, dim as int);
                assert(dim <= crate::shape::MAX_ELEMENTS);
            }
            let (offset_delta, new_dim_info): (isize, Option<(usize, isize)>) = match indexer {
                TensorIndexer::Select(idx) => {
                    if idx >= dim {
                        proof {
                            lemma_state_fail(shape@, strides@, off0, ixs, es, (i + 1) as nat, rank as nat);
                        }
                        let mut msg = String::from_str("index ");
                        msg.append(decimal_text(idx).as_str());
                        msg.append(" out of bounds for dim ");
                        msg.append(decimal_text(i).as_str());
                        msg.append(" (size ");
                        msg.append(decimal_text(dim).as_str());
                        msg.append(")");
                        return Err(Error::InvalidShape(msg));
                    }
                    let delta = match stride.checked_mul(idx as isize) {
                        Some(d) => d,
                        None => {
                            proof {
                                lemma_state_fail(shape@, strides@, off0, ixs, es, (i + 1) as nat, rank as nat);
                            }
                            return Err(Error::invalid_shape("indexer offset overflow"));
                        },
                    };
                    (delta, None)
                },
                TensorIndexer::Slice { start, end, step } => {
                    if step == 0 {
                        proof {
                            lemma_state_fail(shape@, strides@, off0, ixs, es, (i + 1) as nat, rank as nat);
                        }
                        return Err(Error::invalid_shape("slice step cannot be zero"));
                    }
                    if start > dim || end > dim {
                        proof {
                            lemma_state_fail(shape@, strides@, off0, ixs, es, (i + 1) as nat, rank as nat);
                        }
                        let mut msg = String::from_str("slice range [");
                        msg.append(decimal_text(start).as_str());
                        msg.append(", ");
                        msg.append(decimal_text(end).as_str());
                        msg.append(") out of bounds for dim ");
                        msg.append(decimal_text(i).as_str());
                        msg.append(" (size ");
                        msg.append(decimal_text(dim).as_str());
                        msg.append(")");
                        return Err(Error::InvalidShape(msg));
                    }
                    let len: usize = if start >= end {
                        0
                    } else {
                        let span = end - start;
                        if span % step == 0 {
                            span / step
                        } else {
                            span / step + 1
                        }
                    };
                    proof {
                        lemma_slice_len_le(start, end, step);
                    }
                    let delta = match stride.checked_mul(start as isize) {
                        Some(d) => d,
                        None => {
                            proof {
                                lemma_state_fail(shape@, strides@, off0, ixs, es, (i + 1) as nat, rank as nat);
                            }
                            return Err(Error::invalid_shape("slice offset overflow"));
                        },
                    };
                    if step > isize::MAX as usize {
                        proof {
                            lemma_state_fail(shape@, strides@, off0, ixs, es, (i + 1) as nat, rank as nat);
                        }
                        return Err(Error::invalid_shape("slice step exceeds isize range"));
                    }
                    let step_isize = step as isize;
                    let new_stride = match stride.checked_mul(step_isize) {
                        Some(s) => s,
                        None => {
                            proof {
                                lemma_state_fail(shape@, strides@, off0, ixs, es, (i + 1) as nat, rank as nat);
                            }
                            return Err(Error::invalid_shape("slice stride overflow"));
                        },
                    };
                    (delta, Some((len, new_stride)))
                },
            };
            let byte_delta = match offset_delta.checked_mul(elem_size) {
                Some(b) => b,
                None => {
                    proof {
                        lemma_state_fail(shape@, strides@, off0, ixs, es, (i + 1) as nat, rank as nat);
                    }
                    return Err(Error::invalid_shape("byte offset overflow"));
                },
            };
            if current_offset_bytes > isize::MAX as usize {
                proof {
                    lemma_state_fail(shape@, strides@, off0, ixs, es, (i + 1) as nat, rank as nat);
                }
                return Err(Error::invalid_shape("base offset exceeds isize range"));
            }
            let total = match (current_offset_bytes as isize).checked_add(byte_delta) {
                Some(t) => t,
                None => {
                    proof {
                        lemma_state_fail(shape@, strides@, off0, ixs, es, (i + 1) as nat, rank as nat);
                    }
                    return Err(Error::invalid_shape("total offset overflow"));
                },
            };
            if total < 0 {
                proof {
                    lemma_state_fail(shape@, strides@, off0, ixs, es, (i + 1) as nat, rank as nat);
                }
                return Err(Error::invalid_shape("total offset negative"));
            }
            current_offset_bytes = total as usize;
            match new_dim_info {
                Some((len, new_stride)) => {
                    proof {
                        lemma_bounded_push(
                            new_shape@,
                            dims_product(shape@.take(i as int)),
                            len,
                            dim,
                        );
                    }
                    new_shape.push(len);
                    crate::small_vec::strides_push(&mut new_strides, new_stride);
                },
                None => {
                    proof {
                        lemma_mul_grows(dim as int, dims_product(shape@.take(i as int)) as int);
                    }
                },
            }
            i += 1;
        }
        proof {
            assert(shape@.take(rank as int) =~= shape@);
            assert forall|n: int| 0 <= n <= new_shape@.len() implies #[trigger] dims_product(
                new_shape@.take(n),
            ) <= crate::shape::MAX_ELEMENTS as nat by {
                assert(dims_product(new_shape@.take(n)) <= dims_product(shape@.take(rank as int)));
            }
            lemma_bounded_first_bad(new_shape@);
        }
        let new_layout_shape = match ConcreteShape::from_slice(new_shape.as_slice()) {
            Ok(s) => s,
            Err(e) => {
                return Err(e);
            },
        };
        Layout::with_strides(new_layout_shape, strides_as_slice(&new_strides), current_offset_bytes)
    }


    /// Slices dimension `axis` to the positions `start, start + step, ...`
    /// below `end`, keeping the other dimensions whole.
    pub fn slice(&self, axis: usize, start: usize, end: usize, step: usize, dtype: DType) -> (r:
        Result<Self, Error>)
        ensures
            axis >= self@.shape.len() ==> (r matches Err(Error::InvalidAxes(m)) && m@ == "axis "@
                + decimal(axis as nat) + " out of bounds for rank "@ + decimal(self@.shape.len())),
            axis < self@.shape.len() ==> match indexing_spec(
                self@,
                slice_indexers(self@.shape, axis, start, end, step),
                dtype.size_spec() as int,
            ) {
                None => r matches Err(Error::InvalidShape(_)),
                Some(v) => r matches Ok(l) && l@ == v,
            },
    {
        let rank = self.shape.rank();
        if axis >= rank {
            let mut msg = String::from_str("axis ");
            msg.append(decimal_text(axis).as_str());
            msg.append(" out of bounds for rank ");
            msg.append(decimal_text(rank).as_str());
            return Err(Error::InvalidAxes(msg));
        }
        let shape = self.shape();
        let mut indexers: Vec<TensorIndexer> = Vec::new();
        let mut i: usize = 0;
        while i < rank
            invariant
                rank == shape@.len(),
                shape@ == self@.shape,
                i <= rank,
                indexers@ =~= slice_indexers(shape@, axis, start, end, step).take(i as int),
            decreases rank - i,
        {
            if i == axis {
                indexers.push(TensorIndexer::Slice { start, end, step });
            } else {
                indexers.push(TensorIndexer::Slice { start: 0, end: shape[i], step: 1 });
            }
            i += 1;
        }
        assert(indexers@ =~= slice_indexers(shape@, axis, start, end, step));
        self.perform_indexing(indexers.as_slice(), dtype)
    }

    /// Reorders the dimensions: dimension `k` of the result is dimension
    /// `axes[k]`. `axes` must list every axis exactly once.
    pub fn permute(&self, axes: &[usize]) -> (r: Result<Self, Error>)
        ensures
            (axes@.len() == self@.shape.len() && axes_valid(axes@, self@.shape.len() as usize))
                ==> (r matches Ok(l) && l@ == permute_view(self@, axes@)),
            !(axes@.len() == self@.shape.len() && axes_valid(axes@, self@.shape.len() as usize))
                ==> r matches Err(Error::InvalidShape(_)),
            axes@.len() != self@.shape.len() ==> (r matches Err(Error::InvalidShape(m)) && m@
                == "permute axes length must match tensor rank"@),
            axes@.len() == self@.shape.len() && !axes_valid(axes@, self@.shape.len() as usize) ==> (
            r matches Err(Error::InvalidShape(m)) && m@ == (if axes@[first_bad_axis(
                axes@,
                self@.shape.len() as usize,
                0,
            )] >= self@.shape.len() {
                "permute axis out of bounds"@
            } else {
                "duplicate axis in permute"@
            })),
    {
        proof {
            use_type_invariant(self);
            lemma_valid_facts(self@.shape);
        }
        if axes.len() != self.shape.rank() {
            return Err(Error::invalid_shape("permute axes length must match tensor rank"));
        }
        let rank = self.shape.rank();
        let mut seen: Vec<bool> = vec![false; axes.len()];
        let mut i: usize = 0;
        while i < axes.len()
            invariant
                seen@.len() == rank == axes@.len(),
                i <= axes@.len(),
                axes_valid(axes@.take(i as int), rank),
                forall|x: int| 0 <= x < rank ==> (seen@[x] <==> axes@.take(i as int).contains(x as usize)),
                first_bad_axis(axes@, rank, 0) == first_bad_axis(axes@, rank, i as int),
                rank == self@.shape.len(),
            decreases axes@.len() - i,
        {
            let axis = axes[i];
            if axis >= rank {
                assert(axes@[i as int] >= rank);
                return Err(Error::invalid_shape("permute axis out of bounds"));
            }
            if seen[axis] {
                proof {
                    let k = choose|k: int| 0 <= k < i && axes@.take(i as int)[k] == axis;
                    assert(axes@[k] == axes@[i as int]);
                    assert(axes@.take(i as int).contains(axis));
                }
                return Err(Error::invalid_shape("duplicate axis in permute"));
            }
            proof {
                if axes@.take(i as int).contains(axis) {
                    let k = choose|k: int| 0 <= k < i && axes@.take(i as int)[k] == axis;
                    assert(seen@[axis as int]);
                }
                assert(first_bad_axis(axes@, rank, i as int) == first_bad_axis(axes@, rank, i + 1));
            }
            seen.set(axis, true);
            proof {
                let t = axes@.take(i + 1);
                assert(t =~= axes@.take(i as int).push(axis));
                assert forall|x: int| 0 <= x < rank implies (seen@[x] <==> t.contains(x as usize)) by {
                    if x == axis {
                        assert(t[i as int] == axis);
                    } else if seen@[x] {
                        let k = choose|k: int| 0 <= k < i && axes@.take(i as int)[k] == x as usize;
                        assert(t[k] == x as usize);
                    } else if t.contains(x as usize) {
                        let k = choose|k: int| 0 <= k < t.len() && t[k] == x as usize;
                        assert(axes@.take(i as int)[k] == x as usize);
                    }
                }
                assert forall|p: int, q: int| 0 <= p < q < t.len() implies t[p] != t[q] by {
                    if q == i {
                        assert(axes@.take(i as int)[p] == t[p]);
                    }
                }
            }
            i += 1;
        }
        assert(axes@.take(axes@.len() as int) =~= axes@);
        let shape = self.shape();
        let strides = self.strides();
        let mut new_shape: Vec<usize> = Vec::new();
        let mut new_strides = crate::small_vec::strides_new();
        let mut j: usize = 0;
        while j < axes.len()
            invariant
                rank == axes@.len() == shape@.len() == strides@.len() <= MAX_RANK,
                shape@ == self@.shape,
                strides@ == self@.strides,
                axes_valid(axes@, rank),
                j <= rank,
                new_shape@ =~= select_dims(shape@, axes@.take(j as int)),
                strides_contents(new_strides) =~= Seq::new(
                    j as nat,
                    |k: int| strides@[axes@[k] as int],
                ),
            decreases rank - j,
        {
            new_shape.push(shape[axes[j]]);
            crate::small_vec::strides_push(&mut new_strides, strides[axes[j]]);
            j += 1;
        }
        proof {
            assert(axes@.take(rank as int) =~= axes@);
            assert forall|n: int| 0 <= n <= new_shape@.len() implies #[trigger] dims_product(
                new_shape@.take(n),
            ) <= crate::shape::MAX_ELEMENTS as nat by {
                let sub = axes@.take(n);
                assert(new_shape@.take(n) =~= select_dims(shape@, sub));
                crate::shape::lemma_select_product_le(shape@, sub);
            }
            lemma_bounded_first_bad(new_shape@);
            assert forall|k: int| 0 <= k < new_shape@.len() implies new_shape@[k] > 0 by {
                assert(new_shape@[k] == shape@[axes@[k] as int]);
            }
        }
        let new_layout_shape = match ConcreteShape::from_slice(new_shape.as_slice()) {
            Ok(s) => s,
            Err(e) => {
                return Err(e);
            },
        };
        Layout::with_strides(new_layout_shape, strides_as_slice(&new_strides), self.offset_bytes)
    }

    /// Exchanges dimensions `axis_a` and `axis_b`.
    pub fn transpose(&self, axis_a: usize, axis_b: usize) -> (r: Result<Self, Error>)
        ensures
            (axis_a >= self@.shape.len() || axis_b >= self@.shape.len()) ==> (r matches Err(
                Error::InvalidShape(m),
            ) && m@ == "transpose axis out of bounds"@),
            (axis_a < self@.shape.len() && axis_b < self@.shape.len()) ==> (r matches Ok(l) && l@
                == permute_view(self@, swapped_axes(self@.shape.len() as usize, axis_a, axis_b))),
    {
        let rank = self.shape.rank();
        if axis_a >= rank || axis_b >= rank {
            return Err(Error::invalid_shape("transpose axis out of bounds"));
        }
        let ghost sw = swapped_axes(rank, axis_a, axis_b);
        let mut axes: Vec<usize> = Vec::new();
        let mut k: usize = 0;
        while k < rank
            invariant
                k <= rank,
                axis_a < rank,
                axis_b < rank,
                sw == swapped_axes(rank, axis_a, axis_b),
                axes@ =~= sw.take(k as int),
            decreases rank - k,
        {
            if k == axis_a {
                axes.push(axis_b);
            } else if k == axis_b {
                axes.push(axis_a);
            } else {
                axes.push(k);
            }
            k += 1;
        }
        proof {
            assert(axes@ =~= sw);
            assert forall|p: int, q: int| 0 <= p < q < sw.len() implies sw[p] != sw[q] by {}
        }
        self.permute(axes.as_slice())
    }

    /// The same elements seen through `new_shape`; the layout must be
    /// contiguous and the element counts must agree.
    pub fn reshape(&self, new_shape: ConcreteShape) -> (r: Result<Self, Error>)
        ensures
            dims_product(new_shape@) != dims_product(self@.shape) ==> (r matches Err(
                Error::SizeMismatch { expected, actual },
            ) && expected == dims_product(self@.shape) && actual == dims_product(new_shape@)),
            dims_product(new_shape@) == dims_product(self@.shape) && self@.kind
                != LayoutKind::Contiguous ==> (r matches Err(Error::InvalidShape(m)) && m@
                == "reshape requires contiguous layout; call contiguous() first"@),
            dims_product(new_shape@) == dims_product(self@.shape) && self@.kind
                == LayoutKind::Contiguous ==> (r matches Ok(l) && reshape_result(
                self@,
                new_shape@,
                l@,
            )),
    {
        let expected = self.shape.num_elements();
        let actual = new_shape.num_elements();
        if actual != expected {
            return Err(Error::SizeMismatch { expected, actual });
        }
        if !self.is_contiguous() {
            return Err(
                Error::invalid_shape("reshape requires contiguous layout; call contiguous() first"),
            );
        }
        Ok(Layout::contiguous_with_offset(new_shape, self.offset_bytes))
    }


    /// Broadcasts this layout to `new_shape`: dimensions are aligned from
    /// the right, and a dimension of size 1 (or a missing one) stretches with
    /// stride 0.
    pub fn broadcast_to(&self, new_shape: &ConcreteShape) -> (r: Result<Self, Error>)
        ensures
            match broadcast_view(self@, new_shape@) {
                None => r matches Err(Error::ShapeMismatch { lhs, rhs }) && lhs@ == self@.shape
                    && rhs@ == new_shape@,
                Some(w) => r matches Ok(l) && l@ == w,
            },
    {
        proof {
            use_type_invariant(self);
        }
        let shape = self.shape();
        let strides = self.strides();
        let target = new_shape.as_slice();
        let n = target.len();
        let m = shape.len();
        let ghost gn = n as int;
        let mut tmp: Vec<isize> = vec![0; n];
        let mut k: usize = 0;
        while k < n
            invariant
                n == target@.len() == new_shape@.len() <= MAX_RANK,
                gn == n,
                target@ == new_shape@,
                m == shape@.len() == strides@.len(),
                shape@ == self@.shape,
                strides@ == self@.strides,
                tmp@.len() == n,
                k <= n,
                forall|j: int|
                    n - k <= j < n ==> ((#[trigger] broadcast_stride(self@, gn, j, target@[j]))
                        matches Some(st) && tmp@[j] == st),
            decreases n - k,
        {
            let j = n - 1 - k;
            let dim = target[j];
            let (shape_dim, stride): (usize, isize) = if k < m {
                (shape[m - 1 - k], strides[m - 1 - k])
            } else {
                (1, 0)
            };
            assert((shape_dim, stride) == aligned_layout_dim(self@, gn, j as int));
            if shape_dim == dim {
                tmp.set(j, stride);
            } else if shape_dim == 1 {
                tmp.set(j, 0);
            } else {
                proof {
                    assert(broadcast_stride(self@, gn, j as int, target@[j as int]) is None);
                }
                return Err(
                    Error::ShapeMismatch {
                        lhs: vstd::slice::slice_to_vec(shape),
                        rhs: vstd::slice::slice_to_vec(target),
                    },
                );
            }
            k += 1;
        }
        proof {
            assert(tmp@ =~= broadcast_view(self@, new_shape@).unwrap().strides);
        }
        Self::with_strides(new_shape.clone(), tmp.as_slice(), self.offset_bytes)
    }

    /// Broadcasts two layouts to the broadcast of their shapes.
    pub fn broadcast_binary(lhs: &Layout, rhs: &Layout) -> (r: Result<(Layout, Layout), Error>)
        ensures
            !broadcast_compatible(lhs@.shape, rhs@.shape) ==> (r matches Err(
                Error::ShapeMismatch { lhs: a, rhs: b },
            ) && a@ == lhs@.shape && b@ == rhs@.shape),
            broadcast_compatible(lhs@.shape, rhs@.shape) ==> match first_bad_dim(
                broadcast_dims(lhs@.shape, rhs@.shape),
            ) {
                None => r matches Ok((a, b)) && Some(a@) == broadcast_view(
                    lhs@,
                    broadcast_dims(lhs@.shape, rhs@.shape),
                ) && Some(b@) == broadcast_view(rhs@, broadcast_dims(lhs@.shape, rhs@.shape)),
                Some(j) => r matches Err(Error::TensorTooLarge { limit, requested }) && limit
                    == crate::shape::MAX_ELEMENTS && requested == clamp_to_usize(
                    dims_product(broadcast_dims(lhs@.shape, rhs@.shape).take(j + 1)),
                ),
            },
    {
        proof {
            use_type_invariant(lhs);
            use_type_invariant(rhs);
            lemma_valid_facts(lhs@.shape);
            lemma_valid_facts(rhs@.shape);
        }
        let dims = match broadcast_shapes(lhs.shape(), rhs.shape()) {
            Ok(d) => d,
            Err(e) => {
                return Err(e);
            },
        };
        proof {
            let bd = broadcast_dims(lhs@.shape, rhs@.shape);
            let n = bd.len() as int;
            assert forall|j: int| 0 <= j < bd.len() implies bd[j] != 0 by {
                assert(broadcast_pair(aligned_dim(lhs@.shape, n, j), aligned_dim(rhs@.shape, n, j))
                    is Some);
            }
            match first_bad_dim(bd) {
                Some(j) => {
                    lemma_first_bad_bounds(bd);
                },
                None => {},
            }
            lemma_broadcast_view_some(lhs@, rhs@.shape);
            lemma_broadcast_view_some_rhs(rhs@, lhs@.shape);
        }
        let new_shape = match ConcreteShape::from_slice(dims.as_slice()) {
            Ok(s) => s,
            Err(e) => {
                return Err(e);
            },
        };
        let l = match lhs.broadcast_to(&new_shape) {
            Ok(l) => l,
            Err(e) => {
                return Err(e);
            },
        };
        let r = match rhs.broadcast_to(&new_shape) {
            Ok(r) => r,
            Err(e) => {
                return Err(e);
            },
        };
        Ok((l, r))
    }


    /// The offset in whole elements of `dtype`: `offset_bytes / size`.
    pub fn offset_elements(&self, dtype: DType) -> (r: isize)
        ensures
            r == (self@.offset_bytes as int / dtype.size_spec() as int) as isize,
    {
        (self.offset_bytes / dtype.size_in_bytes()) as isize
    }

    /// Checks that every byte the layout can touch lies below `buffer_len_bytes`.
    pub fn validate_bounds(&self, dtype: DType, buffer_len_bytes: usize) -> (r: Result<(), Error>)
        ensures
            r is Ok <==> (max_offset_spec(self@, dtype.size_spec() as int) matches Some(m) && m
                < buffer_len_bytes),
            r matches Err(e) ==> e is InvalidShape,
            match max_offset_spec(self@, dtype.size_spec() as int) {
                Some(m) => m >= buffer_len_bytes ==> (r matches Err(Error::InvalidShape(msg))
                    && msg@ == "layout exceeds buffer bounds: end="@ + decimal(m as nat)
                    + " bytes, buffer_len="@ + decimal(buffer_len_bytes as nat) + " bytes"@),
                None => true,
            },
    {
        let end = match self.max_offset_bytes(dtype) {
            Ok(e) => e,
            Err(e) => {
                return Err(e);
            },
        };
        if end >= buffer_len_bytes {
            let mut msg = String::from_str("layout exceeds buffer bounds: end=");
            msg.append(decimal_text(end).as_str());
            msg.append(" bytes, buffer_len=");
            msg.append(decimal_text(buffer_len_bytes).as_str());
            msg.append(" bytes");
            return Err(Error::InvalidShape(msg));
        }
        Ok(())
    }

    /// The last byte the layout can touch: the offset plus the extent of
    /// every dimension plus the size of one element, minus one. Negative
    /// strides are rejected.
    pub fn max_offset_bytes(&self, dtype: DType) -> (r: Result<usize, Error>)
        ensures
            match max_offset_spec(self@, dtype.size_spec() as int) {
                None => r matches Err(Error::InvalidShape(_)),
                Some(m) => r matches Ok(v) && v == m,
            },
    {
        proof {
            use_type_invariant(self);
            lemma_valid_facts(self@.shape);
        }
        let elem_size = dtype.size_in_bytes();
        let ghost es = elem_size as int;
        let shape = self.shape();
        let strides = self.strides();
        let ghost e0 = extent_from(shape@, strides@, 0);
        if self.offset_bytes > isize::MAX as usize {
            return Err(Error::invalid_shape("layout offset exceeds addressable isize range"));
        }
        let mut max_bytes: isize = self.offset_bytes as isize;
        let n = shape.len();
        proof {
            let z = e0 - extent_from(shape@, strides@, 0);
            assert(z == 0);
            assert(es * z == 0) by (nonlinear_arith)
                requires
                    z == 0,
            ;
        }
        let mut i: usize = 0;
        while i < n
            invariant
                n == shape@.len() == strides@.len(),
                shape@ == self@.shape,
                strides@ == self@.strides,
                forall|k: int| 0 <= k < shape@.len() ==> shape@[k] > 0,
                dims_product(shape@) <= crate::shape::MAX_ELEMENTS,
                es == elem_size == dtype.size_spec(),
                1 <= es <= 8,
                e0 == extent_from(shape@, strides@, 0),
                i <= n,
                forall|k: int| 0 <= k < i ==> strides@[k] >= 0,
                e0 - extent_from(shape@, strides@, i as int) >= 0,
                max_bytes == self@.offset_bytes + es * (e0 - extent_from(shape@, strides@, i as int)),
            decreases n - i,
        {
            let dim = shape[i];
            let stride = strides[i];
            proof {
                if strides_nonneg(strides@) {
                    lemma_extent_nonneg(shape@, strides@, i as int + 1);
                }
                crate::shape::lemma_suffix_product_bound(shape@, 0);
                assert(shape@.subrange(0, shape@.len() as int) =~= shape@);
                lemma_dim_le_product(shape@, i as int);
            }
            if stride < 0 {
                return Err(Error::invalid_shape("negative strides are not supported in bounds check"));
            }
            let ghost term: int = stride as int * (dim as int - 1);
            proof {
                assert(term >= 0) by (nonlinear_arith)
                    requires
                        term == stride as int * (dim as int - 1),
                        stride >= 0,
                        dim >= 1,
                ;
            }
            let extent = match stride.checked_mul((dim as isize) - 1) {
                Some(x) => x,
                None => {
                    proof {
                        lemma_total_exceeds(self@.offset_bytes as int, es, e0, extent_from(shape@, strides@, i as int), term, extent_from(shape@, strides@, i as int + 1), strides_nonneg(strides@));
                    }
                    return Err(Error::invalid_shape("stride*extent overflow"));
                },
            };
            proof {
                assert(extent as int * es == es * term) by (nonlinear_arith)
                    requires
                        extent as int == term,
                ;
            }
            let extent_bytes = match extent.checked_mul(elem_size as isize) {
                Some(x) => x,
                None => {
                    proof {
                        lemma_total_exceeds(self@.offset_bytes as int, es, e0, extent_from(shape@, strides@, i as int), term, extent_from(shape@, strides@, i as int + 1), strides_nonneg(strides@));
                    }
                    return Err(Error::invalid_shape("byte offset overflow"));
                },
            };
            max_bytes = match max_bytes.checked_add(extent_bytes) {
                Some(x) => x,
                None => {
                    proof {
                        lemma_total_exceeds(self@.offset_bytes as int, es, e0, extent_from(shape@, strides@, i as int), term, extent_from(shape@, strides@, i as int + 1), strides_nonneg(strides@));
                    }
                    return Err(Error::invalid_shape("byte offset overflow"));
                },
            };
            proof {
                let a = es;
                let b = term;
                let c = extent_from(shape@, strides@, i as int + 1);
                assert(a * (e0 - (b + c)) + a * b == a * (e0 - c)) by (nonlinear_arith);
            }
            i += 1;
        }
        proof {
            assert(extent_from(shape@, strides@, n as int) == 0);
            assert(es * e0 >= 0) by (nonlinear_arith)
                requires
                    es >= 1,
                    e0 >= 0,
            ;
            assert(forall|k: int| 0 <= k < strides@.len() ==> strides@[k] >= 0);
        }
        let last_byte = match max_bytes.checked_add((elem_size as isize) - 1) {
            Some(x) => x,
            None => {
                return Err(Error::invalid_shape("byte offset overflow (last byte)"));
            },
        };
        if last_byte < 0 {
            return Err(Error::invalid_shape("byte offset exceeds addressable range"));
        }
        Ok(last_byte as usize)
    }

    /// The byte offset of the element at `indices`, one index per dimension.
    pub fn offset_bytes_for_indices(&self, indices: &[usize], dtype: DType) -> (r: Result<
        usize,
        Error,
    >)
        ensures
            match index_offset_spec(self@, indices@, dtype.size_spec() as int) {
                None => r matches Err(Error::InvalidShape(_)),
                Some(o) => r matches Ok(v) && v == o,
            },
    {
        proof {
            use_type_invariant(self);
        }
        let shape = self.shape();
        let strides = self.strides();
        let n = shape.len();
        if indices.len() != n {
            return Err(Error::invalid_shape("index rank must match tensor rank"));
        }
        let elem_size = dtype.size_in_bytes() as isize;
        let ghost es = elem_size as int;
        let ghost off0 = self.offset_bytes as int;
        if self.offset_bytes > isize::MAX as usize {
            proof {
                lemma_offset_state_fail(shape@, strides@, off0, indices@, es, 0, n as nat);
            }
            return Err(Error::invalid_shape("layout offset exceeds addressable isize range"));
        }
        let mut offset: isize = self.offset_bytes as isize;
        let mut i: usize = 0;
        while i < n
            invariant
                n == shape@.len() == strides@.len() == indices@.len(),
                shape@ == self@.shape,
                strides@ == self@.strides,
                off0 == self@.offset_bytes,
                es == elem_size == dtype.size_spec(),
                i <= n,
                index_offset_state(shape@, strides@, off0, indices@, es, i as nat) == Some(offset as int),
                valid_dims(shape@),
            decreases n - i,
        {
            let idx = indices[i];
            if idx >= shape[i] {
                proof {
                    lemma_offset_state_fail(shape@, strides@, off0, indices@, es, (i + 1) as nat, n as nat);
                }
                return Err(Error::invalid_shape("index out of bounds"));
            }
            proof {
                lemma_valid_facts(shape@);
                lemma_dim_le_product(shape@, i as int);
            }
            let delta = match strides[i].checked_mul(idx as isize) {
                Some(d) => d,
                None => {
                    proof {
                        lemma_offset_state_fail(shape@, strides@, off0, indices@, es, (i + 1) as nat, n as nat);
                    }
                    return Err(Error::invalid_shape("index stride multiplication overflow"));
                },
            };
            let bytes = match delta.checked_mul(elem_size) {
                Some(b) => b,
                None => {
                    proof {
                        lemma_offset_state_fail(shape@, strides@, off0, indices@, es, (i + 1) as nat, n as nat);
                    }
                    return Err(Error::invalid_shape("index byte offset overflow"));
                },
            };
            offset = match offset.checked_add(bytes) {
                Some(o) => o,
                None => {
                    proof {
                        lemma_offset_state_fail(shape@, strides@, off0, indices@, es, (i + 1) as nat, n as nat);
                    }
                    return Err(Error::invalid_shape("index byte offset overflow (accumulated)"));
                },
            };
            i += 1;
        }
        if offset < 0 {
            return Err(Error::invalid_shape("index offset exceeds addressable range"));
        }
        Ok(offset as usize)
    }


    /// The byte offset of every element, in row-major order of the indices.
    /// Every element offset must lie in `0..=isize::MAX`.
    pub fn iter_offsets(&self, dtype: DType) -> (r: Vec<usize>)
        requires
            offsets_in_range(self@, dtype.size_spec() as int),
        ensures
            self@.kind == LayoutKind::Contiguous ==> r@ == Seq::new(
                dims_product(self@.shape),
                |i: int| (self@.offset_bytes + i * dtype.size_spec()) as usize,
            ),
            r@ == as_usize_seq(element_offsets(self@, dtype.size_spec() as int)),
    {
        proof {
            use_type_invariant(self);
            lemma_valid_facts(self@.shape);
        }
        let elem_size = dtype.size_in_bytes();
        let ghost es = elem_size as int;
        proof {
            lemma_elements_in_range(self@, es);
        }
        if self.is_contiguous() {
            let n = self.num_elements();
            proof {
                lemma_contiguous_offsets(self@, es);
                let last = element_offsets(self@, es)[n - 1];
                assert(last == self@.offset_bytes + (n - 1) * es);
                assert(self@.offset_bytes + es * (n - 1) == last) by (nonlinear_arith)
                    requires
                        last == self@.offset_bytes + (n - 1) * es,
                ;
            }
            let mut out: Vec<usize> = Vec::new();
            let mut i: usize = 0;
            while i < n
                invariant
                    n == dims_product(self@.shape),
                    n >= 1,
                    es == elem_size == dtype.size_spec(),
                    1 <= es <= 8,
                    self@.offset_bytes + es * (n - 1) <= isize::MAX,
                    i <= n,
                    out@ =~= Seq::new(i as nat, |k: int| (self@.offset_bytes + k * es) as usize),
                decreases n - i,
            {
                proof {
                    assert(i * es <= es * (n - 1)) by (nonlinear_arith)
                        requires
                            0 <= i <= n - 1,
                            es >= 1,
                    ;
                }
                out.push(self.offset_bytes + i * elem_size);
                i += 1;
            }
            proof {
                lemma_contiguous_offsets(self@, es);
                assert(out@ =~= as_usize_seq(element_offsets(self@, es)));
            }
            out
        } else {
            let mut out: Vec<usize> = Vec::new();
            push_offsets(self.shape(), self.strides(), elem_size, 0, self.offset_bytes, &mut out);
            proof {
                assert(out@ =~= as_usize_seq(element_offsets(self@, es)));
            }
            out
        }
    }

    fn new_unchecked(
        shape: ConcreteShape,
        strides: ArrayVec<[isize; MAX_RANK]>,
        offset_bytes: usize,
    ) -> (r: Self)
        requires
            strides_contents(strides).len() == shape@.len(),
        ensures
            r@ == (LayoutView {
                shape: shape@,
                strides: strides_contents(strides),
                offset_bytes,
                kind: kind_of(shape@, strides_contents(strides)),
            }),
    {
        let kind = compute_kind(shape.as_slice(), strides_as_slice(&strides));
        Layout { shape, strides, offset_bytes, kind }
    }
}

proof fn lemma_prefix_product_le(s: Seq<usize>, n: int)
    requires
        0 <= n <= s.len(),
        forall|k: int| 0 <= k < s.len() ==> s[k] > 0,
    ensures
        dims_product(s.take(n)) <= dims_product(s),
    decreases s.len() - n,
{
    if n < s.len() {
        lemma_prefix_product_le(s, n + 1);
        assert(s.take(n + 1) =~= s.take(n).push(s[n]));
        crate::shape::lemma_product_push(s.take(n), s[n]);
        lemma_mul_grows(s[n] as int, dims_product(s.take(n)) as int);
    } else {
        assert(s.take(n) =~= s);
    }
}

proof fn lemma_as_usize_concat(a: Seq<int>, b: Seq<int>)
    ensures
        as_usize_seq(a + b) =~= as_usize_seq(a) + as_usize_seq(b),
{
}

proof fn lemma_offsets_seq_prefix(
    shape: Seq<usize>,
    strides: Seq<isize>,
    b: int,
    es: int,
    d: nat,
    j: nat,
    j2: nat,
)
    requires
        d < shape.len(),
        j <= j2,
    ensures
        offsets_seq(shape, strides, b, es, d, j2).len() >= offsets_seq(shape, strides, b, es, d, j).len(),
        offsets_seq(shape, strides, b, es, d, j2).subrange(
            0,
            offsets_seq(shape, strides, b, es, d, j).len() as int,
        ) == offsets_seq(shape, strides, b, es, d, j),
    decreases j2,
{
    if j2 == j {
        assert(offsets_seq(shape, strides, b, es, d, j2).subrange(
            0,
            offsets_seq(shape, strides, b, es, d, j).len() as int,
        ) =~= offsets_seq(shape, strides, b, es, d, j));
    } else {
        lemma_offsets_seq_prefix(shape, strides, b, es, d, j, (j2 - 1) as nat);
        let a = offsets_seq(shape, strides, b, es, d, (j2 - 1) as nat);
        let w = offsets_seq(shape, strides, b, es, d, j2);
        let p = offsets_seq(shape, strides, b, es, d, j);
        assert(w.subrange(0, a.len() as int) =~= a);
        assert(w.subrange(0, p.len() as int) =~= p);
    }
}

proof fn lemma_offsets_seq_first(
    shape: Seq<usize>,
    strides: Seq<isize>,
    b: int,
    es: int,
    d: nat,
    j: nat,
)
    requires
        forall|k: int| 0 <= k < shape.len() ==> shape[k] > 0,
        d <= shape.len(),
        d < shape.len() ==> j >= 1,
    ensures
        offsets_seq(shape, strides, b, es, d, j).len() >= 1,
        offsets_seq(shape, strides, b, es, d, j)[0] == b,
    decreases shape.len() - d, j,
{
    if d < shape.len() {
        let right_base = b + (j - 1) * strides[d as int] * es;
        let jn = dim_or_zero(shape, d + 1 as int);
        lemma_offsets_seq_first(shape, strides, right_base, es, d + 1, jn);
        if j == 1 {
            assert(right_base == b) by (nonlinear_arith)
                requires
                    right_base == b + (j - 1) * strides[d as int] * es,
                    j == 1,
            ;
        } else {
            lemma_offsets_seq_first(shape, strides, b, es, d, (j - 1) as nat);
        }
    }
}

/// Appends the offsets of all elements whose indices before dimension `d`
/// are fixed at the position with byte offset `base`.
fn push_offsets(
    shape: &[usize],
    strides: &[isize],
    es: usize,
    d: usize,
    base: usize,
    out: &mut Vec<usize>,
)
    requires
        shape@.len() == strides@.len() <= MAX_RANK,
        d <= shape@.len(),
        forall|k: int| 0 <= k < shape@.len() ==> shape@[k] > 0,
        1 <= es <= 8,
        seq_in_range(
            offsets_seq(
                shape@,
                strides@,
                base as int,
                es as int,
                d as nat,
                dim_or_zero(shape@, d as int),
            ),
        ),
    ensures
        final(out)@ == old(out)@ + as_usize_seq(
            offsets_seq(
                shape@,
                strides@,
                base as int,
                es as int,
                d as nat,
                dim_or_zero(shape@, d as int),
            ),
        ),
    decreases shape@.len() - d,
{
    if d == shape.len() {
        out.push(base);
        proof {
            assert(as_usize_seq(seq![base as int]) =~= seq![base]);
        }
        return;
    }
    let dim = shape[d];
    let ghost out0 = out@;
    let ghost gd = d as nat;
    let ghost st = strides@[d as int] as int;
    let ghost whole = offsets_seq(shape@, strides@, base as int, es as int, gd, dim as nat);
    let ghost jn = dim_or_zero(shape@, d + 1);
    proof {
        assert(offsets_seq(shape@, strides@, base as int, es as int, gd, 0) =~= Seq::<int>::empty());
        assert(base as int == base + 0 * st * es) by (nonlinear_arith);
    }
    let mut cur: usize = base;
    let mut j: usize = 0;
    while j < dim
        invariant
            shape@.len() == strides@.len() <= MAX_RANK,
            d < shape@.len(),
            gd == d,
            dim == shape@[d as int],
            st == strides@[d as int],
            jn == dim_or_zero(shape@, d + 1),
            forall|k: int| 0 <= k < shape@.len() ==> shape@[k] > 0,
            1 <= es <= 8,
            whole == offsets_seq(shape@, strides@, base as int, es as int, gd, dim as nat),
            seq_in_range(whole),
            j <= dim,
            j < dim ==> cur as int == base + j * st * es,
            out@ == out0 + as_usize_seq(
                offsets_seq(shape@, strides@, base as int, es as int, gd, j as nat),
            ),
        decreases dim - j,
    {
        let ghost prev = offsets_seq(shape@, strides@, base as int, es as int, gd, j as nat);
        let ghost inner = offsets_seq(shape@, strides@, cur as int, es as int, gd + 1, jn);
        proof {
            assert((j + 1 - 1) * st * es == j * st * es);
            assert(offsets_seq(shape@, strides@, base as int, es as int, gd, (j + 1) as nat) == prev
                + inner);
            lemma_offsets_seq_prefix(shape@, strides@, base as int, es as int, gd, (j + 1) as nat, dim as nat);
            let pj = prev + inner;
            assert(whole.subrange(0, pj.len() as int) == pj);
            assert forall|t: int| 0 <= t < inner.len() implies 0 <= #[trigger] inner[t] <= isize::MAX by {
                assert(pj[prev.len() + t] == inner[t]);
                assert(whole[prev.len() + t] == pj[prev.len() + t]);
            }
        }
        push_offsets(shape, strides, es, d + 1, cur, out);
        proof {
            lemma_as_usize_concat(prev, inner);
            assert(out@ =~= out0 + as_usize_seq(prev + inner));
        }
        if j + 1 < dim {
            let ghost nb = base + (j + 1) * st * es;
            proof {
                lemma_offsets_seq_first(shape@, strides@, cur as int, es as int, gd + 1, jn);
                lemma_offsets_seq_first(shape@, strides@, nb, es as int, gd + 1, jn);
                let p2 = offsets_seq(shape@, strides@, base as int, es as int, gd, (j + 1) as nat);
                let inner2 = offsets_seq(shape@, strides@, nb, es as int, gd + 1, jn);
                assert((j + 2 - 1) * st * es == nb - base);
                assert(offsets_seq(shape@, strides@, base as int, es as int, gd, (j + 2) as nat) == p2
                    + inner2);
                lemma_offsets_seq_prefix(shape@, strides@, base as int, es as int, gd, (j + 2) as nat, dim as nat);
                let pj2 = p2 + inner2;
                assert(whole.subrange(0, pj2.len() as int) == pj2);
                assert(pj2[p2.len() as int] == nb);
                assert(whole[p2.len() as int] == nb);
                assert(0 <= nb <= isize::MAX);
                assert(inner[0] == cur);
                assert(0 <= cur <= isize::MAX);
                assert(nb - cur == st * es) by (nonlinear_arith)
                    requires
                        nb == base + (j + 1) * st * es,
                        cur == base + j * st * es,
                ;
            }
            let step: isize = strides[d] * (es as isize);
            cur = (cur as isize + step) as usize;
        }
        j += 1;
    }
}

fn compute_kind(shape: &[usize], strides: &[isize]) -> (k: LayoutKind)
    requires
        valid_dims(shape@),
        strides@.len() == shape@.len(),
    ensures
        k == kind_of(shape@, strides@),
{
    proof {
        lemma_valid_facts(shape@);
    }
    let n = shape.len();
    let mut expected: isize = 1;
    let mut k: usize = 0;
    while k < n
        invariant
            n == shape@.len() == strides@.len(),
            k <= n,
            valid_dims(shape@),
            forall|i: int| 0 <= i < shape@.len() ==> shape@[i] > 0,
            dims_product(shape@) <= crate::shape::MAX_ELEMENTS,
            expected == suffix_product(shape@, n - k),
            forall|j: int| n - k <= j < n ==> strides@[j] == suffix_product(shape@, j + 1),
        decreases n - k,
    {
        let i = n - 1 - k;
        if strides[i] != expected {
            return LayoutKind::General;
        }
        proof {
            lemma_suffix_product_step(shape@, i as int);
            lemma_suffix_product_bound(shape@, i as int);
            lemma_suffix_product_bound(shape@, i as int + 1);
            lemma_mul_grows(suffix_product(shape@, i + 1) as int, shape@[i as int] as int);
            let a = suffix_product(shape@, i + 1) as int;
            let b = shape@[i as int] as int;
            assert(a * b == b * a) by (nonlinear_arith);
        }
        expected = expected * (shape[i] as isize);
        k += 1;
    }
    LayoutKind::Contiguous
}


/// Exchanging the same two axes twice gives back the layout.
pub proof fn lemma_transpose_twice(v: LayoutView, a: usize, b: usize)
    requires
        layout_wf(v),
        a < v.shape.len(),
        b < v.shape.len(),
    ensures
        permute_view(
            permute_view(v, swapped_axes(v.shape.len() as usize, a, b)),
            swapped_axes(v.shape.len() as usize, a, b),
        ) == v,
{
    let sw = swapped_axes(v.shape.len() as usize, a, b);
    let w = permute_view(v, sw);
    let u = permute_view(w, sw);
    assert(u.shape =~= v.shape);
    assert(u.strides =~= v.strides);
}

/// Permuting the axes by `p` and then by its inverse `q` gives back the layout.
pub proof fn lemma_permute_inverse(v: LayoutView, p: Seq<usize>, q: Seq<usize>)
    requires
        layout_wf(v),
        p.len() == v.shape.len(),
        axes_valid(p, v.shape.len() as usize),
        q.len() == v.shape.len(),
        forall|j: int| 0 <= j < q.len() ==> q[j] < p.len() && #[trigger] p[q[j] as int] == j,
    ensures
        permute_view(permute_view(v, p), q) == v,
{
    let w = permute_view(v, p);
    let u = permute_view(w, q);
    assert forall|j: int| 0 <= j < q.len() implies u.shape[j] == v.shape[j] && u.strides[j]
        == v.strides[j] by {
        let k = q[j] as int;
        assert(p[k] == j);
        assert(w.shape[k] == v.shape[p[k] as int]);
        assert(w.strides[k] == v.strides[p[k] as int]);
    }
    assert(u.shape =~= v.shape);
    assert(u.strides =~= v.strides);
}

/// Reshaping a row-major layout to a shape with as many elements, and the
/// result back to the first shape, gives back the layout.
pub proof fn lemma_reshape_roundtrip(v: LayoutView, s: Seq<usize>, w: LayoutView, u: LayoutView)
    requires
        layout_wf(v),
        v.kind == LayoutKind::Contiguous,
        dims_product(s) == dims_product(v.shape),
        reshape_result(v, s, w),
        reshape_result(w, v.shape, u),
    ensures
        u == v,
{
    assert(is_contiguous_strides(v.shape, v.strides));
    assert(u.strides =~= v.strides);
}

/// Two layouts whose shapes broadcast can both be broadcast to the
/// broadcast shape, and then have that same shape.
pub proof fn lemma_broadcast_pair_same_shape(lhs: LayoutView, rhs: LayoutView)
    requires
        layout_wf(lhs),
        layout_wf(rhs),
        broadcast_compatible(lhs.shape, rhs.shape),
    ensures
        broadcast_view(lhs, broadcast_dims(lhs.shape, rhs.shape)) matches Some(a) && a.shape
            == broadcast_dims(lhs.shape, rhs.shape),
        broadcast_view(rhs, broadcast_dims(lhs.shape, rhs.shape)) matches Some(b) && b.shape
            == broadcast_dims(lhs.shape, rhs.shape),
{
    lemma_broadcast_view_some(lhs, rhs.shape);
    lemma_broadcast_view_some_rhs(rhs, lhs.shape);
}

/// Reshaping keeps the elements where they are, in the same row-major
/// order: the reshaped layout lists the same byte offsets.
pub proof fn lemma_reshape_keeps_offsets(v: LayoutView, s: Seq<usize>, w: LayoutView, es: int)
    requires
        layout_wf(v),
        valid_dims(s),
        v.kind == LayoutKind::Contiguous,
        dims_product(s) == dims_product(v.shape),
        reshape_result(v, s, w),
    ensures
        element_offsets(w, es) == element_offsets(v, es),
{
    lemma_contiguous_offsets(v, es);
    lemma_contiguous_offsets(w, es);
}

/// Broadcasting a layout to its own shape gives back the layout.
pub proof fn lemma_broadcast_to_own_shape(v: LayoutView)
    requires
        layout_wf(v),
    ensures
        broadcast_view(v, v.shape) == Some(v),
{
    let n = v.shape.len() as int;
    assert forall|j: int| 0 <= j < n implies (#[trigger] broadcast_stride(v, n, j, v.shape[j]))
        == Some(v.strides[j]) by {}
    let w = broadcast_view(v, v.shape).unwrap();
    assert(w.strides =~= v.strides);
}

/// The offsets of the elements of a row-major layout are evenly spaced by
/// the element size, starting at the layout's offset.
pub proof fn lemma_contiguous_offsets(v: LayoutView, es: int)
    requires
        layout_wf(v),
        is_contiguous_strides(v.shape, v.strides),
    ensures
        element_offsets(v, es) == Seq::new(
            dims_product(v.shape),
            |t: int| v.offset_bytes + t * es,
        ),
{
    lemma_valid_facts(v.shape);
    if v.shape.len() == 0 {
        assert(element_offsets(v, es) =~= Seq::new(1, |t: int| v.offset_bytes + t * es));
    } else {
        let dim0 = v.shape[0];
        lemma_offsets_contiguous_block(v.shape, v.strides, v.offset_bytes as int, es, 0, dim0 as nat);
        lemma_suffix_product_step(v.shape, 0);
        assert(v.shape.subrange(0, v.shape.len() as int) =~= v.shape);
        let p = suffix_product(v.shape, 1);
        assert(dim0 * p == dims_product(v.shape));
    }
}

#[verifier::spinoff_prover]
proof fn lemma_offsets_contiguous_block(
    shape: Seq<usize>,
    strides: Seq<isize>,
    base: int,
    es: int,
    d: nat,
    j: nat,
)
    requires
        d < shape.len(),
        j <= shape[d as int],
        is_contiguous_strides(shape, strides),
    ensures
        offsets_seq(shape, strides, base, es, d, j) == Seq::new(
            j * suffix_product(shape, d + 1int),
            |t: int| base + t * es,
        ),
    decreases shape.len() - d, j,
{
    let p = suffix_product(shape, d + 1int);
    if j == 0 {
        assert(offsets_seq(shape, strides, base, es, d, 0) =~= Seq::new(
            0 * p,
            |t: int| base + t * es,
        ));
    } else {
        lemma_offsets_contiguous_block(shape, strides, base, es, d, (j - 1) as nat);
        let nb = base + (j - 1) * strides[d as int] * es;
        assert(strides[d as int] == p);
        let inner = offsets_seq(shape, strides, nb, es, d + 1, dim_or_zero(shape, d + 1int));
        if d + 1 == shape.len() {
            assert(shape.subrange(d + 1int, shape.len() as int) =~= Seq::<usize>::empty());
            assert(p == 1);
            assert(inner == seq![nb]);
        } else {
            lemma_offsets_contiguous_block(
                shape,
                strides,
                nb,
                es,
                (d + 1) as nat,
                shape[d + 1int] as nat,
            );
            lemma_suffix_product_step(shape, d + 1int);
            assert((shape[d + 1int] as nat) * suffix_product(shape, d + 1int + 1int) == p);
            assert(inner =~= Seq::new(p, |t: int| nb + t * es));
        }
        assert(inner == Seq::new(p, |t: int| nb + t * es));
        let prev = Seq::new(((j - 1) * p) as nat, |t: int| base + t * es);
        assert((j - 1) * p + p == j * p) by (nonlinear_arith);
        let whole = prev + inner;
        assert forall|t: int| 0 <= t < j * p implies #[trigger] whole[t] == base + t * es by {
            if t >= (j - 1) * p {
                let u = t - (j - 1) * p;
                assert(whole[t] == inner[u]);
                assert(nb + u * es == base + t * es) by (nonlinear_arith)
                    requires
                        nb == base + (j - 1) * p * es,
                        u == t - (j - 1) * p,
                ;
            }
        }
        assert(whole =~= Seq::new(j * p, |t: int| base + t * es));
    }
}


/// `sum of strides[k] * indices[k]` over the first `i` dimensions.
pub open spec fn index_sum(strides: Seq<isize>, indices: Seq<usize>, i: int) -> int
    decreases i,
{
    if i <= 0 {
        0
    } else {
        index_sum(strides, indices, i - 1) + strides[i - 1] * indices[i - 1]
    }
}

proof fn lemma_index_state_bounded(v: LayoutView, indices: Seq<usize>, es: int, i: nat)
    requires
        layout_wf(v),
        1 <= es,
        max_offset_spec(v, es) is Some,
        indices.len() == v.shape.len(),
        forall|k: int| 0 <= k < indices.len() ==> indices[k] < v.shape[k],
        i <= v.shape.len(),
    ensures
        index_offset_state(v.shape, v.strides, v.offset_bytes as int, indices, es, i) == Some(
            v.offset_bytes + es * index_sum(v.strides, indices, i as int),
        ),
        0 <= index_sum(v.strides, indices, i as int) <= extent_from(v.shape, v.strides, 0)
            - extent_from(v.shape, v.strides, i as int),
    decreases i,
{
    lemma_valid_facts(v.shape);
    let e0 = extent_from(v.shape, v.strides, 0);
    if i == 0 {
        assert(es * 0 == 0);
    } else {
        let k = (i - 1) as int;
        lemma_index_state_bounded(v, indices, es, (i - 1) as nat);
        lemma_extent_nonneg(v.shape, v.strides, k + 1);
        lemma_extent_nonneg(v.shape, v.strides, 0);
        let p = index_sum(v.strides, indices, k);
        let st = v.strides[k] as int;
        let idx = indices[k] as int;
        let dim = v.shape[k] as int;
        let term = st * (dim - 1);
        let delta = st * idx;
        let ek = extent_from(v.shape, v.strides, k);
        let ek1 = extent_from(v.shape, v.strides, k + 1);
        assert(ek == term + ek1);
        assert(0 <= delta <= term) by (nonlinear_arith)
            requires
                st >= 0,
                0 <= idx < dim,
                delta == st * idx,
                term == st * (dim - 1),
        ;
        let off = v.offset_bytes as int;
        assert(es * e0 >= es * (p + delta) && es * (p + delta) >= 0 && es * delta >= 0 && es * delta
            >= delta && es * (p + delta) == es * p + delta * es) by (nonlinear_arith)
            requires
                es >= 1,
                0 <= p,
                0 <= delta,
                p + delta <= e0,
        ;
        assert(off + es * e0 + es - 1 <= isize::MAX);
    }
}

/// Every element of a layout that passes the bounds computation lies inside
/// it: its first byte is at or after the layout's offset, and its last byte
/// is at or before the last byte that `max_offset_bytes` computes.
pub proof fn lemma_index_offset_within_bounds(v: LayoutView, indices: Seq<usize>, es: int)
    requires
        layout_wf(v),
        1 <= es,
        max_offset_spec(v, es) is Some,
        indices.len() == v.shape.len(),
        forall|k: int| 0 <= k < indices.len() ==> indices[k] < v.shape[k],
    ensures
        index_offset_spec(v, indices, es) matches Some(o) && v.offset_bytes <= o && o + es - 1
            <= max_offset_spec(v, es).unwrap(),
{
    lemma_index_state_bounded(v, indices, es, v.shape.len());
    let p = index_sum(v.strides, indices, v.shape.len() as int);
    let e0 = extent_from(v.shape, v.strides, 0);
    assert(extent_from(v.shape, v.strides, v.shape.len() as int) == 0);
    assert(es * p <= es * e0 && es * p >= 0) by (nonlinear_arith)
        requires
            es >= 1,
            0 <= p <= e0,
    ;
}


proof fn lemma_full_slices_state(v: LayoutView, es: int, i: nat)
    requires
        layout_wf(v),
        1 <= es,
        v.offset_bytes <= isize::MAX,
        i <= v.shape.len(),
    ensures
        indexing_state(v.shape, v.strides, v.offset_bytes as int, Seq::empty(), es, i) == Some(
            (v.shape.take(i as int), v.strides.take(i as int), v.offset_bytes as int),
        ),
    decreases i,
{
    lemma_valid_facts(v.shape);
    if i == 0 {
        assert(v.shape.take(0) =~= Seq::<usize>::empty());
        assert(v.strides.take(0) =~= Seq::<isize>::empty());
    } else {
        let k = (i - 1) as int;
        lemma_full_slices_state(v, es, (i - 1) as nat);
        let dim = v.shape[k];
        assert(slice_len(0, dim, 1) == dim);
        let st = v.strides[k];
        assert(st * 1 == st && st * 0 == 0);
        assert(indexer_for(Seq::empty(), k, dim) == full_slice(dim));
        assert(index_step(full_slice(dim), dim, st) == Some((0int, Some((dim, st)))));
        assert(v.shape.take(i as int) =~= v.shape.take(k).push(dim));
        assert(v.strides.take(i as int) =~= v.strides.take(k).push(v.strides[k]));
        assert(0 * es == 0);
    }
}

/// Indexers left out keep their dimension whole: indexing with no indexers
/// gives back the layout (whose offset must fit in `isize`).
pub proof fn lemma_index_nothing(v: LayoutView, es: int)
    requires
        layout_wf(v),
        1 <= es,
        v.offset_bytes <= isize::MAX,
    ensures
        indexing_spec(v, Seq::empty(), es) == Some(v),
{
    lemma_valid_facts(v.shape);
    lemma_full_slices_state(v, es, v.shape.len());
    assert(v.shape.take(v.shape.len() as int) =~= v.shape);
    assert(v.strides.take(v.strides.len() as int) =~= v.strides);
}

/// Position `k` of the index of element `t`, counted in row-major order,
/// of a tensor of `shape`: `(t mod suffix_product(k)) div suffix_product(k + 1)`.
pub open spec fn row_major_digit(shape: Seq<usize>, t: int, k: int) -> int {
    (t % (suffix_product(shape, k) as int)) / (suffix_product(shape, k + 1) as int)
}

/// The index of element `t`, counted in row-major order, of a tensor of `shape`.
pub open spec fn unravel(shape: Seq<usize>, t: int) -> Seq<usize> {
    Seq::new(shape.len(), |k: int| row_major_digit(shape, t, k) as usize)
}

/// `sum of strides[k] * row_major_digit(shape, t, k)` over the dimensions from `d` on.
pub open spec fn digit_dot(shape: Seq<usize>, strides: Seq<isize>, t: int, d: int) -> int
    decreases shape.len() - d,
{
    if d < 0 || d >= shape.len() {
        0
    } else {
        strides[d] * row_major_digit(shape, t, d) + digit_dot(shape, strides, t, d + 1)
    }
}

proof fn lemma_mod_suffix(s: Seq<usize>, a: int, r: int, d: int, k: int)
    requires
        forall|i: int| 0 <= i < s.len() ==> s[i] > 0,
        0 <= d <= k <= s.len(),
        a >= 0,
        r >= 0,
    ensures
        (a * suffix_product(s, d) + r) % (suffix_product(s, k) as int) == r % (suffix_product(
            s,
            k,
        ) as int),
    decreases k - d,
{
    lemma_suffix_product_bound(s, k);
    if d == k {
        let m = suffix_product(s, k) as int;
        assert(a * m == m * a) by (nonlinear_arith);
        vstd::arithmetic::div_mod::lemma_mod_multiples_vanish(a, r, m);
    } else {
        lemma_suffix_product_step(s, d);
        let a2 = a * s[d];
        let p = suffix_product(s, d) as int;
        let q = suffix_product(s, d + 1) as int;
        assert(a * p == a2 * q && a2 >= 0) by (nonlinear_arith)
            requires
                p == s[d] * q,
                a2 == a * s[d],
                a >= 0,
                s[d] > 0,
        ;
        lemma_mod_suffix(s, a2, r, d + 1, k);
    }
}

proof fn lemma_digit_dot_shift(
    shape: Seq<usize>,
    strides: Seq<isize>,
    t: int,
    r: int,
    a: int,
    d: int,
    k: int,
)
    requires
        forall|i: int| 0 <= i < shape.len() ==> shape[i] > 0,
        0 <= d <= k <= shape.len(),
        a >= 0,
        r >= 0,
        t == a * suffix_product(shape, d) + r,
    ensures
        digit_dot(shape, strides, t, k) == digit_dot(shape, strides, r, k),
    decreases shape.len() - k,
{
    if k < shape.len() {
        lemma_mod_suffix(shape, a, r, d, k);
        lemma_digit_dot_shift(shape, strides, t, r, a, d, k + 1);
    }
}

proof fn lemma_offsets_seq_digits(
    shape: Seq<usize>,
    strides: Seq<isize>,
    base: int,
    es: int,
    d: nat,
    j: nat,
)
    requires
        forall|i: int| 0 <= i < shape.len() ==> shape[i] > 0,
        d <= shape.len(),
        d < shape.len() ==> j <= shape[d as int],
    ensures
        offsets_seq(shape, strides, base, es, d, j).len() == (if d >= shape.len() {
            1
        } else {
            j * suffix_product(shape, d + 1 as int)
        }),
        forall|t: int|
            0 <= t < offsets_seq(shape, strides, base, es, d, j).len() ==> #[trigger] offsets_seq(
                shape,
                strides,
                base,
                es,
                d,
                j,
            )[t] == base + es * digit_dot(shape, strides, t, d as int),
    decreases shape.len() - d, j,
{
    let n = shape.len();
    let os = offsets_seq(shape, strides, base, es, d, j);
    if d >= n {
        assert(digit_dot(shape, strides, 0, d as int) == 0);
    } else if j == 0 {
    } else {
        let p = suffix_product(shape, d + 1 as int) as int;
        lemma_suffix_product_bound(shape, d + 1 as int);
        let base2 = base + (j - 1) * strides[d as int] * es;
        let j2 = dim_or_zero(shape, d + 1 as int);
        lemma_offsets_seq_digits(shape, strides, base, es, d, (j - 1) as nat);
        lemma_offsets_seq_digits(shape, strides, base2, es, d + 1, j2);
        let left = offsets_seq(shape, strides, base, es, d, (j - 1) as nat);
        let right = offsets_seq(shape, strides, base2, es, d + 1, j2);
        assert(os == left + right);
        if d + 1 < n {
            lemma_suffix_product_step(shape, d + 1 as int);
        } else {
            assert(shape.subrange(n as int, n as int) =~= Seq::<usize>::empty());
        }
        assert(right.len() == p);
        assert(left.len() == (j - 1) * p);
        assert(os.len() == j * p) by (nonlinear_arith)
            requires
                os.len() == left.len() + right.len(),
                left.len() == (j - 1) * p,
                right.len() == p,
        ;
        lemma_suffix_product_step(shape, d as int);
        let sd = suffix_product(shape, d as int) as int;
        assert forall|t: int| 0 <= t < os.len() implies #[trigger] os[t] == base + es * digit_dot(
            shape,
            strides,
            t,
            d as int,
        ) by {
            if t < left.len() {
                assert(os[t] == left[t]);
            } else {
                let r = t - left.len();
                assert(os[t] == right[r]);
                assert(right[r] == base2 + es * digit_dot(shape, strides, r, d + 1 as int));
                let jm = (j - 1) as int;
                assert(t == jm * p + r);
                assert(0 <= r < p);
                assert(t < sd) by (nonlinear_arith)
                    requires
                        t == jm * p + r,
                        r < p,
                        p >= 1,
                        jm >= 0,
                        jm + 1 <= shape[d as int],
                        sd == shape[d as int] * p,
                ;
                vstd::arithmetic::div_mod::lemma_fundamental_div_mod_converse(t, sd, 0, t);
                vstd::arithmetic::div_mod::lemma_fundamental_div_mod_converse(t, p, jm, r);
                assert(row_major_digit(shape, t, d as int) == jm);
                lemma_digit_dot_shift(shape, strides, t, r, jm, d + 1 as int, d + 1 as int);
                let st = strides[d as int] as int;
                let x = digit_dot(shape, strides, r, d + 1 as int);
                assert(es * (st * jm + x) == jm * st * es + es * x) by (nonlinear_arith);
            }
        }
    }
}

proof fn lemma_index_sum_digits(shape: Seq<usize>, strides: Seq<isize>, t: int, i: int)
    requires
        0 <= i <= shape.len(),
        forall|k: int| 0 <= k < shape.len() ==> 0 <= #[trigger] row_major_digit(shape, t, k) < shape[k],
    ensures
        index_sum(strides, unravel(shape, t), i) + digit_dot(shape, strides, t, i) == digit_dot(
            shape,
            strides,
            t,
            0,
        ),
    decreases i,
{
    if i > 0 {
        lemma_index_sum_digits(shape, strides, t, i - 1);
        assert(unravel(shape, t)[i - 1] == row_major_digit(shape, t, i - 1));
    }
}

/// The index `idx` lies inside `shape`.
pub open spec fn index_in_bounds(shape: Seq<usize>, idx: Seq<usize>) -> bool {
    &&& idx.len() == shape.len()
    &&& forall|k: int| 0 <= k < idx.len() ==> idx[k] < shape[k]
}

/// Every element of `v` starts at a byte offset in `0..=isize::MAX`, for
/// elements of `es` bytes.
pub open spec fn offsets_in_range(v: LayoutView, es: int) -> bool {
    forall|idx: Seq<usize>|
        #[trigger] index_in_bounds(v.shape, idx) ==> 0 <= byte_offset(v, idx, es) <= isize::MAX
}

/// Every value of `s` lies in `0..=isize::MAX`.
pub open spec fn seq_in_range(s: Seq<int>) -> bool {
    forall|t: int| 0 <= t < s.len() ==> 0 <= #[trigger] s[t] <= isize::MAX
}

proof fn lemma_element_is_byte_offset(v: LayoutView, es: int, t: int)
    requires
        layout_wf(v),
        0 <= t < dims_product(v.shape),
    ensures
        element_offsets(v, es).len() == dims_product(v.shape),
        index_in_bounds(v.shape, unravel(v.shape, t)),
        element_offsets(v, es)[t] == byte_offset(v, unravel(v.shape, t), es),
{
    lemma_valid_facts(v.shape);
    let n = v.shape.len();
    let u = unravel(v.shape, t);
    assert(v.shape.subrange(0, n as int) =~= v.shape);
    lemma_offsets_seq_digits(v.shape, v.strides, v.offset_bytes as int, es, 0, dim_or_zero(v.shape, 0));
    if n > 0 {
        lemma_suffix_product_step(v.shape, 0);
    }
    assert forall|k: int| 0 <= k < n implies 0 <= #[trigger] row_major_digit(v.shape, t, k) < v.shape[k] by {
        lemma_suffix_product_bound(v.shape, k);
        lemma_suffix_product_bound(v.shape, k + 1);
        lemma_suffix_product_step(v.shape, k);
        let m = suffix_product(v.shape, k) as int;
        let q = suffix_product(v.shape, k + 1) as int;
        let x = t % m;
        vstd::arithmetic::div_mod::lemma_mod_pos_bound(t, m);
        vstd::arithmetic::div_mod::lemma_div_pos_is_pos(x, q);
        vstd::arithmetic::div_mod::lemma_fundamental_div_mod(x, q);
        let y = x / q;
        assert(y < v.shape[k]) by (nonlinear_arith)
            requires
                x == q * y + x % q,
                0 <= x % q,
                x < m,
                m == v.shape[k] * q,
                q >= 1,
        ;
    }
    assert forall|k: int| 0 <= k < u.len() implies u[k] < v.shape[k] by {
        assert(0 <= row_major_digit(v.shape, t, k) < v.shape[k]);
    }
    lemma_index_sum_digits(v.shape, v.strides, t, n as int);
}

/// When every element offset of `v` is in range, so is every value that
/// `iter_offsets` lists.
proof fn lemma_elements_in_range(v: LayoutView, es: int)
    requires
        layout_wf(v),
        offsets_in_range(v, es),
    ensures
        seq_in_range(element_offsets(v, es)),
        element_offsets(v, es).len() == dims_product(v.shape),
{
    lemma_valid_facts(v.shape);
    lemma_element_is_byte_offset(v, es, 0);
    assert forall|t: int| 0 <= t < element_offsets(v, es).len() implies 0
        <= #[trigger] element_offsets(v, es)[t] <= isize::MAX by {
        lemma_element_is_byte_offset(v, es, t);
    }
}

proof fn lemma_index_sum_zero_tail(strides: Seq<isize>, idx: Seq<usize>, z: Seq<usize>, i: int, m: int)
    requires
        0 <= i <= m,
        forall|q: int| 0 <= q < i ==> z[q] == idx[q],
        forall|q: int| i <= q < m ==> z[q] == 0,
    ensures
        index_sum(strides, z, m) == index_sum(strides, idx, i),
    decreases m,
{
    if m > i {
        lemma_index_sum_zero_tail(strides, idx, z, i, m - 1);
        assert(strides[m - 1] * 0 == 0);
    } else {
        lemma_index_sum_agree(strides, z, strides, idx, i);
    }
}

proof fn lemma_index_state_in_range(v: LayoutView, indices: Seq<usize>, es: int, i: nat)
    requires
        layout_wf(v),
        1 <= es,
        offsets_in_range(v, es),
        index_in_bounds(v.shape, indices),
        i <= v.shape.len(),
    ensures
        index_offset_state(v.shape, v.strides, v.offset_bytes as int, indices, es, i) == Some(
            v.offset_bytes + es * index_sum(v.strides, indices, i as int),
        ),
        0 <= v.offset_bytes + es * index_sum(v.strides, indices, i as int) <= isize::MAX,
    decreases i,
{
    lemma_valid_facts(v.shape);
    let n = v.shape.len();
    let z = Seq::new(n, |q: int| if q < i { indices[q] } else { 0usize });
    assert(index_in_bounds(v.shape, z));
    lemma_index_sum_zero_tail(v.strides, indices, z, i as int, n as int);
    let off = v.offset_bytes as int;
    if i == 0 {
        assert(es * 0 == 0);
    } else {
        let k = (i - 1) as int;
        lemma_index_state_in_range(v, indices, es, (i - 1) as nat);
        let a = index_sum(v.strides, indices, k);
        let delta = v.strides[k] * indices[k];
        let p0 = off + es * a;
        let p1 = off + es * (a + delta);
        assert(p1 - p0 == delta * es && (delta * es >= delta || delta * es <= delta) && (delta >= 0
            ==> delta * es >= delta) && (delta <= 0 ==> delta * es <= delta)) by (nonlinear_arith)
            requires
                p0 == off + es * a,
                p1 == off + es * (a + delta),
                es >= 1,
        ;
    }
}

/// A layout that passes the bounds computation has every element offset in range.
pub proof fn lemma_bounds_give_range(v: LayoutView, es: int)
    requires
        layout_wf(v),
        1 <= es,
        max_offset_spec(v, es) is Some,
    ensures
        offsets_in_range(v, es),
{
    assert forall|idx: Seq<usize>| #[trigger] index_in_bounds(v.shape, idx) implies 0 <= byte_offset(
        v,
        idx,
        es,
    ) <= isize::MAX by {
        lemma_index_state_bounded(v, idx, es, v.shape.len());
        lemma_extent_nonneg(v.shape, v.strides, 0);
        let p = index_sum(v.strides, idx, v.shape.len() as int);
        let e0 = extent_from(v.shape, v.strides, 0);
        assert(extent_from(v.shape, v.strides, v.shape.len() as int) == 0);
        assert(es * p <= es * e0 && es * p >= 0) by (nonlinear_arith)
            requires
                es >= 1,
                0 <= p <= e0,
        ;
    }
}

/// Element `t`, in row-major order, of a layout whose element offsets stay
/// in `0..=isize::MAX` lies at the offset that its index gives: the list
/// that `iter_offsets` returns and the offsets that `offset_bytes_for_indices`
/// computes agree.
pub proof fn lemma_offsets_follow_indices(v: LayoutView, es: int, t: int)
    requires
        layout_wf(v),
        1 <= es,
        offsets_in_range(v, es),
        0 <= t < dims_product(v.shape),
    ensures
        element_offsets(v, es).len() == dims_product(v.shape),
        index_offset_spec(v, unravel(v.shape, t), es) == Some(element_offsets(v, es)[t]),
{
    let u = unravel(v.shape, t);
    lemma_element_is_byte_offset(v, es, t);
    lemma_index_state_in_range(v, u, es, v.shape.len());
}

/// The number of dimensions among the first `k` that the indexers keep
/// (those with a slice).
pub open spec fn kept_before(shape: Seq<usize>, ixs: Seq<TensorIndexer>, k: int) -> int
    decreases k,
{
    if k <= 0 {
        0
    } else {
        kept_before(shape, ixs, k - 1) + (if indexer_for(ixs, k - 1, shape[k - 1]) is Slice {
            1int
        } else {
            0int
        })
    }
}

/// The position in dimension `k` of a layout that index `jdx` of the layout
/// indexed with `ixs` reads: the selected position, or `start + jdx[p] * step`
/// when dimension `k` is the `p`-th one kept.
pub open spec fn source_position(
    shape: Seq<usize>,
    ixs: Seq<TensorIndexer>,
    jdx: Seq<usize>,
    k: int,
) -> int {
    match indexer_for(ixs, k, shape[k]) {
        TensorIndexer::Select(idx) => idx as int,
        TensorIndexer::Slice { start, end, step } => start + jdx[kept_before(shape, ixs, k)] * step,
    }
}

/// The index into a layout that index `jdx` of the layout indexed with `ixs` reads.
pub open spec fn source_index(shape: Seq<usize>, ixs: Seq<TensorIndexer>, jdx: Seq<usize>) -> Seq<
    usize,
> {
    Seq::new(shape.len(), |k: int| source_position(shape, ixs, jdx, k) as usize)
}

/// The byte offset of the element at `idx`: the layout's offset plus the
/// element size times `sum of strides[k] * idx[k]`.
pub open spec fn byte_offset(v: LayoutView, idx: Seq<usize>, es: int) -> int {
    v.offset_bytes + es * index_sum(v.strides, idx, idx.len() as int)
}

/// The positions `jdx` lie inside the dimensions `sh`.
pub open spec fn index_fits(jdx: Seq<usize>, sh: Seq<usize>) -> bool {
    &&& jdx.len() >= sh.len()
    &&& forall|p: int| 0 <= p < sh.len() ==> jdx[p] < sh[p]
}

proof fn lemma_index_sum_agree(s1: Seq<isize>, i1: Seq<usize>, s2: Seq<isize>, i2: Seq<usize>, i: int)
    requires
        forall|k: int| 0 <= k < i ==> s1[k] == s2[k] && i1[k] == i2[k],
    ensures
        index_sum(s1, i1, i) == index_sum(s2, i2, i),
    decreases i,
{
    if i > 0 {
        lemma_index_sum_agree(s1, i1, s2, i2, i - 1);
    }
}

proof fn lemma_slice_position(start: usize, end: usize, step: usize, j: int)
    requires
        step >= 1,
        0 <= j < slice_len(start, end, step),
    ensures
        start + j * step < end,
{
    let span = end - start;
    let st = step as int;
    vstd::arithmetic::div_mod::lemma_fundamental_div_mod(span, st);
    vstd::arithmetic::div_mod::lemma_mod_pos_bound(span, st);
    let q = span / st;
    let r = span % st;
    if r == 0 {
        assert(j * st < span) by (nonlinear_arith)
            requires
                j < q,
                span == st * q + r,
                r == 0,
                st >= 1,
        ;
    } else {
        assert(j * st < span) by (nonlinear_arith)
            requires
                j <= q,
                span == st * q + r,
                0 < r,
                st >= 1,
                j >= 0,
        ;
    }
}

proof fn lemma_indexing_source(
    shape: Seq<usize>,
    strides: Seq<isize>,
    offset: int,
    ixs: Seq<TensorIndexer>,
    es: int,
    i: nat,
    jdx: Seq<usize>,
)
    requires
        i <= shape.len(),
        strides.len() == shape.len(),
        indexing_state(shape, strides, offset, ixs, es, i) matches Some((sh, st, off)) && index_fits(
            jdx,
            sh,
        ),
    ensures
        indexing_state(shape, strides, offset, ixs, es, i) matches Some((sh, st, off)) && sh.len()
            == kept_before(shape, ixs, i as int) && st.len() == sh.len() && (forall|k: int|
            0 <= k < i ==> 0 <= #[trigger] source_position(shape, ixs, jdx, k) < shape[k]) && off
            + es * index_sum(st, jdx, sh.len() as int) == offset + es * index_sum(
            strides,
            source_index(shape, ixs, jdx),
            i as int,
        ),
    decreases i,
{
    if i > 0 {
        let k = (i - 1) as int;
        let prev = indexing_state(shape, strides, offset, ixs, es, (i - 1) as nat);
        let (sh, st, off) = indexing_state(shape, strides, offset, ixs, es, i).unwrap();
        let (sh1, st1, off1) = prev.unwrap();
        let ix = indexer_for(ixs, k, shape[k]);
        let (delta, nd) = index_step(ix, shape[k], strides[k]).unwrap();
        assert(off == off1 + delta * es);
        assert(index_fits(jdx, sh1)) by {
            assert forall|p: int| 0 <= p < sh1.len() implies jdx[p] < sh1[p] by {
                assert(sh[p] == sh1[p]);
            }
        }
        lemma_indexing_source(shape, strides, offset, ixs, es, (i - 1) as nat, jdx);
        let src = source_index(shape, ixs, jdx);
        let m1 = sh1.len() as int;
        let stk = strides[k] as int;
        match ix {
            TensorIndexer::Select(idx) => {
                assert(sh == sh1 && st == st1);
                assert(source_position(shape, ixs, jdx, k) == idx);
                assert(src[k] == idx);
                let a = index_sum(strides, src, k);
                let b = index_sum(st1, jdx, m1);
                assert(off + es * b == offset + es * (a + stk * idx)) by (nonlinear_arith)
                    requires
                        off1 + es * b == offset + es * a,
                        off == off1 + delta * es,
                        delta == stk * idx,
                ;
            },
            TensorIndexer::Slice { start, end, step } => {
                let (len, ns) = nd.unwrap();
                assert(sh == sh1.push(len) && st == st1.push(ns));
                lemma_slice_len_le(start, end, step);
                let j = jdx[m1] as int;
                assert(j < len);
                assert(len == slice_len(start, end, step));
                lemma_slice_position(start, end, step, j);
                let pos = start + j * step;
                assert(source_position(shape, ixs, jdx, k) == pos);
                assert(0 <= pos) by (nonlinear_arith)
                    requires
                        j >= 0,
                        step >= 1,
                        pos == start + j * step,
                ;
                assert(src[k] == pos);
                lemma_index_sum_agree(st, jdx, st1, jdx, m1);
                assert(index_sum(st, jdx, m1 + 1) == index_sum(st1, jdx, m1) + ns * j);
                assert(ns == stk * step);
                let a = index_sum(strides, src, k);
                let b = index_sum(st1, jdx, m1);
                assert(off + es * (b + ns * j) == offset + es * (a + stk * pos)) by (nonlinear_arith)
                    requires
                        off1 + es * b == offset + es * a,
                        off == off1 + delta * es,
                        delta == stk * start,
                        ns == stk * step,
                        pos == start + j * step,
                ;
            },
        }
    }
}

/// Indexing gives a view of the same bytes: the element at `jdx` of the
/// indexed layout is the element of the source layout at
/// `source_index(.., jdx)` (the selected positions, and `start + jdx[p] * step`
/// in the sliced dimensions), which lies inside the source shape; when the
/// source layout passes the bounds computation, `offset_bytes_for_indices`
/// gives that same byte offset for it.
pub proof fn lemma_indexing_reads_source(
    v: LayoutView,
    ixs: Seq<TensorIndexer>,
    es: int,
    jdx: Seq<usize>,
)
    requires
        layout_wf(v),
        indexing_spec(v, ixs, es) matches Some(w) && jdx.len() == w.shape.len() && forall|p: int|
            0 <= p < jdx.len() ==> jdx[p] < w.shape[p],
    ensures
        forall|k: int| 0 <= k < v.shape.len() ==> #[trigger] source_index(v.shape, ixs, jdx)[k]
            < v.shape[k],
        byte_offset(indexing_spec(v, ixs, es).unwrap(), jdx, es) == byte_offset(
            v,
            source_index(v.shape, ixs, jdx),
            es,
        ),
        1 <= es && max_offset_spec(v, es) is Some ==> index_offset_spec(
            v,
            source_index(v.shape, ixs, jdx),
            es,
        ) == Some(byte_offset(indexing_spec(v, ixs, es).unwrap(), jdx, es)),
{
    let n = v.shape.len();
    let w = indexing_spec(v, ixs, es).unwrap();
    let (sh, st, off) = indexing_state(
        v.shape,
        v.strides,
        v.offset_bytes as int,
        ixs,
        es,
        n,
    ).unwrap();
    assert(index_fits(jdx, sh));
    lemma_indexing_source(v.shape, v.strides, v.offset_bytes as int, ixs, es, n, jdx);
    let src = source_index(v.shape, ixs, jdx);
    assert forall|k: int| 0 <= k < n implies #[trigger] src[k] < v.shape[k] by {
        assert(0 <= source_position(v.shape, ixs, jdx, k) < v.shape[k]);
    }
    if n > 0 {
        let k = (n - 1) as int;
        let prev = indexing_state(v.shape, v.strides, v.offset_bytes as int, ixs, es, (n - 1) as nat);
        assert(prev is Some);
    }
    assert(w.offset_bytes == off);
    if 1 <= es && max_offset_spec(v, es) is Some {
        lemma_index_state_bounded(v, src, es, n);
    }
}

/// The index into `v` that index `jdx` of `v` broadcast to `n` dimensions
/// reads: dimensions are aligned from the right; a stretched dimension of
/// size 1, or a leading dimension of `v` beyond the `n` aligned ones, reads
/// position 0.
pub open spec fn broadcast_source_index(shape: Seq<usize>, n: int, jdx: Seq<usize>) -> Seq<usize> {
    let m = shape.len() as int;
    Seq::new(
        shape.len(),
        |i: int|
            if i < m - n || shape[i] == 1 {
                0usize
            } else {
                jdx[i + n - m]
            },
    )
}

proof fn lemma_zero_prefix_sum(strides: Seq<isize>, idx: Seq<usize>, i: int)
    requires
        forall|k: int| 0 <= k < i ==> idx[k] == 0,
    ensures
        index_sum(strides, idx, i) == 0,
    decreases i,
{
    if i > 0 {
        lemma_zero_prefix_sum(strides, idx, i - 1);
        assert(strides[i - 1] * 0 == 0);
    }
}

#[verifier::spinoff_prover]
proof fn lemma_broadcast_sums(v: LayoutView, target: Seq<usize>, jdx: Seq<usize>, j: int)
    requires
        layout_wf(v),
        broadcast_view(v, target) is Some,
        jdx.len() == target.len(),
        forall|p: int| 0 <= p < jdx.len() ==> jdx[p] < target[p],
        0 <= j <= target.len(),
    ensures
        ({
            let n = target.len() as int;
            let m = v.shape.len() as int;
            let i = if j < n - m {
                0
            } else {
                j + m - n
            };
            index_sum(broadcast_view(v, target).unwrap().strides, jdx, j) == index_sum(
                v.strides,
                broadcast_source_index(v.shape, n, jdx),
                i,
            )
        }),
    decreases j,
{
    let n = target.len() as int;
    let m = v.shape.len() as int;
    let w = broadcast_view(v, target).unwrap();
    let src = broadcast_source_index(v.shape, n, jdx);
    if j == 0 {
        if m > n {
            lemma_zero_prefix_sum(v.strides, src, m - n);
        }
    } else {
        let jj = j - 1;
        lemma_broadcast_sums(v, target, jdx, jj);
        assert(broadcast_stride(v, n, jj, target[jj]) is Some);
        let bst = w.strides[jj] as int;
        let x = jdx[jj] as int;
        if jj < n - m {
            assert(bst == 0);
            assert(bst * x == 0) by (nonlinear_arith)
                requires
                    bst == 0,
            ;
        } else {
            let i = jj + m - n;
            let si = v.strides[i] as int;
            assert(aligned_layout_dim(v, n, jj) == (v.shape[i], v.strides[i]));
            if v.shape[i] == target[jj] {
                if v.shape[i] == 1 {
                    assert(x == 0);
                    assert(src[i] == 0);
                    assert(bst * x == si * 0) by (nonlinear_arith)
                        requires
                            x == 0,
                    ;
                } else {
                    assert(src[i] == jdx[jj]);
                }
            } else {
                assert(v.shape[i] == 1);
                assert(bst == 0 && src[i] == 0);
                assert(bst * x == si * 0) by (nonlinear_arith)
                    requires
                        bst == 0,
                ;
            }
        }
    }
}

/// Broadcasting gives a view of the same bytes: the element at `jdx` of `v`
/// broadcast to `target` is the element of `v` at
/// `broadcast_source_index(.., jdx)`, which lies inside the shape of `v`.
pub proof fn lemma_broadcast_reads_source(v: LayoutView, target: Seq<usize>, jdx: Seq<usize>, es: int)
    requires
        layout_wf(v),
        broadcast_view(v, target) is Some,
        jdx.len() == target.len(),
        forall|p: int| 0 <= p < jdx.len() ==> jdx[p] < target[p],
    ensures
        forall|i: int|
            0 <= i < v.shape.len() ==> #[trigger] broadcast_source_index(
                v.shape,
                target.len() as int,
                jdx,
            )[i] < v.shape[i],
        byte_offset(broadcast_view(v, target).unwrap(), jdx, es) == byte_offset(
            v,
            broadcast_source_index(v.shape, target.len() as int, jdx),
            es,
        ),
{
    lemma_valid_facts(v.shape);
    let n = target.len() as int;
    let m = v.shape.len() as int;
    let src = broadcast_source_index(v.shape, n, jdx);
    assert forall|i: int| 0 <= i < m implies #[trigger] src[i] < v.shape[i] by {
        if !(i < m - n || v.shape[i] == 1) {
            let j = i + n - m;
            assert(broadcast_stride(v, n, j, target[j]) is Some);
            assert(aligned_layout_dim(v, n, j) == (v.shape[i], v.strides[i]));
        }
    }
    lemma_broadcast_sums(v, target, jdx, n);
}

/// The sum of `f` over the entries of `s`.
pub open spec fn sum_over(s: Seq<usize>, f: spec_fn(int) -> int) -> int
    decreases s.len(),
{
    if s.len() == 0 {
        0
    } else {
        sum_over(s.drop_last(), f) + f(s.last() as int)
    }
}

proof fn lemma_sum_over_remove(s: Seq<usize>, f: spec_fn(int) -> int, k: int)
    requires
        0 <= k < s.len(),
    ensures
        sum_over(s, f) == sum_over(s.remove(k), f) + f(s[k] as int),
    decreases s.len(),
{
    if k == s.len() - 1 {
        assert(s.remove(k) =~= s.drop_last());
    } else {
        let d = s.drop_last();
        lemma_sum_over_remove(d, f, k);
        assert(s.remove(k).drop_last() =~= d.remove(k));
        assert(s.remove(k).last() == s.last());
    }
}

/// `n` distinct axes below `n` name every axis below `n`.
proof fn lemma_axes_cover(s: Seq<usize>, n: nat)
    requires
        s.len() == n,
        axes_valid(s, n as usize),
        n <= usize::MAX,
    ensures
        forall|x: usize| x < n ==> #[trigger] s.contains(x),
    decreases n,
{
    if n > 0 {
        let top = (n - 1) as usize;
        if s.contains(top) {
            let k0 = choose|k: int| 0 <= k < s.len() && s[k] == top;
            let t = s.remove(k0);
            assert forall|i: int| 0 <= i < t.len() implies t[i] < top by {
                if i < k0 {
                    assert(t[i] == s[i]);
                } else {
                    assert(t[i] == s[i + 1]);
                }
            }
            assert forall|i: int, j: int| 0 <= i < j < t.len() implies t[i] != t[j] by {
                let si = if i < k0 { i } else { i + 1 };
                let sj = if j < k0 { j } else { j + 1 };
                assert(t[i] == s[si] && t[j] == s[sj]);
            }
            lemma_axes_cover(t, (n - 1) as nat);
            assert forall|x: usize| x < n implies #[trigger] s.contains(x) by {
                if x < n - 1 {
                    assert(t.contains(x));
                    let i = choose|i: int| 0 <= i < t.len() && t[i] == x;
                    if i < k0 {
                        assert(s[i] == x);
                    } else {
                        assert(s[i + 1] == x);
                    }
                } else {
                    assert(s[k0] == x);
                }
            }
        } else {
            let t = s.drop_last();
            assert forall|i: int| 0 <= i < t.len() implies t[i] < top by {
                assert(t[i] == s[i]);
                assert(s[i] != top);
            }
            assert(axes_valid(t, top));
            lemma_axes_cover(t, (n - 1) as nat);
            let last = s.last();
            assert(last != top);
            assert(t.contains(last));
            let i = choose|i: int| 0 <= i < t.len() && t[i] == last;
            assert(s[i] == s[n - 1]);
            assert(false);
        }
    }
}

proof fn lemma_sum_over_permutation(s: Seq<usize>, f: spec_fn(int) -> int, n: nat)
    requires
        s.len() == n,
        axes_valid(s, n as usize),
        n <= usize::MAX,
    ensures
        sum_over(s, f) == sum_over(crate::shape::all_axes(n as usize), f),
    decreases n,
{
    if n > 0 {
        let top = (n - 1) as usize;
        lemma_axes_cover(s, n);
        assert(s.contains(top));
        let k0 = choose|k: int| 0 <= k < s.len() && s[k] == top;
        let t = s.remove(k0);
        assert forall|i: int| 0 <= i < t.len() implies t[i] < top by {
            if i < k0 {
                assert(t[i] == s[i]);
            } else {
                assert(t[i] == s[i + 1]);
            }
        }
        assert forall|i: int, j: int| 0 <= i < j < t.len() implies t[i] != t[j] by {
            let si = if i < k0 { i } else { i + 1 };
            let sj = if j < k0 { j } else { j + 1 };
            assert(t[i] == s[si] && t[j] == s[sj]);
        }
        lemma_sum_over_remove(s, f, k0);
        lemma_sum_over_permutation(t, f, (n - 1) as nat);
        let r = crate::shape::all_axes(n as usize);
        assert(r.drop_last() =~= crate::shape::all_axes(top));
        assert(r.last() == top);
    }
}

proof fn lemma_index_sum_as_sum_over(
    strides: Seq<isize>,
    idx: Seq<usize>,
    a: Seq<usize>,
    f: spec_fn(int) -> int,
    i: int,
)
    requires
        0 <= i <= a.len(),
        forall|k: int| 0 <= k < i ==> strides[k] * idx[k] == #[trigger] f(a[k] as int),
    ensures
        index_sum(strides, idx, i) == sum_over(a.take(i), f),
    decreases i,
{
    if i > 0 {
        lemma_index_sum_as_sum_over(strides, idx, a, f, i - 1);
        assert(a.take(i).drop_last() =~= a.take(i - 1));
        assert(a.take(i).last() == a[i - 1]);
    }
}

/// The index into `v` that index `jdx` of `v` permuted by `axes` reads:
/// position `jdx[k]` in dimension `axes[k]`.
pub open spec fn permute_source_index(axes: Seq<usize>, jdx: Seq<usize>) -> Seq<usize> {
    Seq::new(axes.len(), |i: int| jdx[choose|k: int| 0 <= k < axes.len() && axes[k] == i])
}

/// Permuting gives a view of the same bytes: the element at `jdx` of `v`
/// permuted by `axes` is the element of `v` whose position in dimension
/// `axes[k]` is `jdx[k]`, which lies inside the shape of `v`.
pub proof fn lemma_permute_reads_source(v: LayoutView, axes: Seq<usize>, jdx: Seq<usize>, es: int)
    requires
        layout_wf(v),
        axes.len() == v.shape.len(),
        axes_valid(axes, v.shape.len() as usize),
        jdx.len() == axes.len(),
        forall|k: int| 0 <= k < jdx.len() ==> jdx[k] < permute_view(v, axes).shape[k],
    ensures
        forall|k: int| 0 <= k < axes.len() ==> #[trigger] permute_source_index(axes, jdx)[axes[k] as int] == jdx[k],
        forall|i: int| 0 <= i < v.shape.len() ==> #[trigger] permute_source_index(axes, jdx)[i] < v.shape[i],
        byte_offset(permute_view(v, axes), jdx, es) == byte_offset(v, permute_source_index(axes, jdx), es),
{
    lemma_valid_facts(v.shape);
    let n = v.shape.len();
    let w = permute_view(v, axes);
    let src = permute_source_index(axes, jdx);
    assert forall|k: int| 0 <= k < axes.len() implies #[trigger] src[axes[k] as int] == jdx[k] by {
        let i = axes[k] as int;
        assert(exists|kk: int| 0 <= kk < axes.len() && axes[kk] == i);
        let kk = choose|kk: int| 0 <= kk < axes.len() && axes[kk] == i;
        if kk != k {
            if kk < k {
                assert(axes[kk] != axes[k]);
            } else {
                assert(axes[k] != axes[kk]);
            }
        }
    }
    lemma_axes_cover(axes, n);
    assert forall|i: int| 0 <= i < n implies #[trigger] src[i] < v.shape[i] by {
        assert(axes.contains(i as usize));
        let k = choose|k: int| 0 <= k < axes.len() && axes[k] == i as usize;
        assert(src[axes[k] as int] == jdx[k]);
        assert(w.shape[k] == v.shape[axes[k] as int]);
    }
    let g = |i: int| v.strides[i] * src[i];
    assert forall|k: int| 0 <= k < n implies w.strides[k] * jdx[k] == #[trigger] g(axes[k] as int) by {
        assert(src[axes[k] as int] == jdx[k]);
    }
    lemma_index_sum_as_sum_over(w.strides, jdx, axes, g, n as int);
    assert(axes.take(n as int) =~= axes);
    let r = crate::shape::all_axes(n as usize);
    assert forall|k: int| 0 <= k < n implies v.strides[k] * src[k] == #[trigger] g(r[k] as int) by {}
    lemma_index_sum_as_sum_over(v.strides, src, r, g, n as int);
    assert(r.take(n as int) =~= r);
    lemma_sum_over_permutation(axes, g, n);
}

proof fn lemma_slice_state(
    v: LayoutView,
    axis: usize,
    start: usize,
    end: usize,
    step: usize,
    es: int,
    i: nat,
)
    requires
        layout_wf(v),
        axis < v.shape.len(),
        i <= v.shape.len(),
        indexing_state(
            v.shape,
            v.strides,
            v.offset_bytes as int,
            slice_indexers(v.shape, axis, start, end, step),
            es,
            i,
        ) is Some,
    ensures
        indexing_state(
            v.shape,
            v.strides,
            v.offset_bytes as int,
            slice_indexers(v.shape, axis, start, end, step),
            es,
            i,
        ) == Some(
            (
                Seq::new(
                    i,
                    |k: int|
                        if k == axis {
                            slice_len(start, end, step) as usize
                        } else {
                            v.shape[k]
                        },
                ),
                Seq::new(
                    i,
                    |k: int|
                        if k == axis {
                            (v.strides[k] * step) as isize
                        } else {
                            v.strides[k]
                        },
                ),
                v.offset_bytes + (if axis < i {
                    v.strides[axis as int] * start * es
                } else {
                    0
                }),
            ),
        ),
    decreases i,
{
    lemma_valid_facts(v.shape);
    let ixs = slice_indexers(v.shape, axis, start, end, step);
    if i == 0 {
        assert(Seq::new(0, |k: int| v.shape[k]) =~= Seq::<usize>::empty());
    } else {
        let k = (i - 1) as int;
        lemma_slice_state(v, axis, start, end, step, es, (i - 1) as nat);
        let dim = v.shape[k];
        let st = v.strides[k];
        assert(indexer_for(ixs, k, dim) == ixs[k]);
        let sh_exp = Seq::new(
            i,
            |q: int|
                if q == axis {
                    slice_len(start, end, step) as usize
                } else {
                    v.shape[q]
                },
        );
        let st_exp = Seq::new(
            i,
            |q: int|
                if q == axis {
                    (v.strides[q] * step) as isize
                } else {
                    v.strides[q]
                },
        );
        let sh_prev = Seq::new(
            (i - 1) as nat,
            |q: int|
                if q == axis {
                    slice_len(start, end, step) as usize
                } else {
                    v.shape[q]
                },
        );
        let st_prev = Seq::new(
            (i - 1) as nat,
            |q: int|
                if q == axis {
                    (v.strides[q] * step) as isize
                } else {
                    v.strides[q]
                },
        );
        if k == axis {
            assert(sh_exp =~= sh_prev.push(slice_len(start, end, step) as usize));
            assert(st_exp =~= st_prev.push((st * step) as isize));
        } else {
            assert(slice_len(0, dim, 1) == dim) by {
                vstd::arithmetic::div_mod::lemma_fundamental_div_mod_converse(dim as int, 1, dim as int, 0);
            }
            assert(st * 0 == 0 && st * 1 == st);
            assert(0 * es == 0);
            assert(sh_exp =~= sh_prev.push(dim));
            assert(st_exp =~= st_prev.push(st));
        }
    }
}

/// Slicing dimension `axis` of a layout to `start, start + step, ...` below
/// `end` keeps every other dimension and stride, gives dimension `axis`
/// the number of those positions, `ceil((end - start) / step)` (none when
/// `start >= end`), with stride `stride * step`, and moves the offset by
/// `stride * start` elements.
pub proof fn lemma_slice_layout(
    v: LayoutView,
    axis: usize,
    start: usize,
    end: usize,
    step: usize,
    es: int,
)
    requires
        layout_wf(v),
        axis < v.shape.len(),
        indexing_spec(v, slice_indexers(v.shape, axis, start, end, step), es) is Some,
    ensures
        ({
            let w = indexing_spec(v, slice_indexers(v.shape, axis, start, end, step), es).unwrap();
            &&& step >= 1
            &&& w.shape == v.shape.update(
                axis as int,
                (if start < end {
                    ((end - start) + step - 1) / (step as int)
                } else {
                    0
                }) as usize,
            )
            &&& w.strides == v.strides.update(axis as int, (v.strides[axis as int] * step) as isize)
            &&& w.offset_bytes == v.offset_bytes + v.strides[axis as int] * start * es
        }),
{
    let n = v.shape.len();
    let ixs = slice_indexers(v.shape, axis, start, end, step);
    lemma_slice_state(v, axis, start, end, step, es, n);
    // the step of the sliced dimension is checked
    lemma_slice_step_checked(v, axis, start, end, step, es, n);
    if start < end {
        let span = end - start;
        let st = step as int;
        vstd::arithmetic::div_mod::lemma_fundamental_div_mod(span, st);
        vstd::arithmetic::div_mod::lemma_mod_pos_bound(span, st);
        let q = span / st;
        let r = span % st;
        if r == 0 {
            assert(span + st - 1 == q * st + (st - 1)) by (nonlinear_arith)
                requires
                    span == st * q + r,
                    r == 0,
            ;
            vstd::arithmetic::div_mod::lemma_fundamental_div_mod_converse(span + st - 1, st, q, st - 1);
        } else {
            assert(span + st - 1 == (q + 1) * st + (r - 1)) by (nonlinear_arith)
                requires
                    span == st * q + r,
            ;
            vstd::arithmetic::div_mod::lemma_fundamental_div_mod_converse(span + st - 1, st, q + 1, r - 1);
        }
    }
    let w = indexing_spec(v, ixs, es).unwrap();
    assert(w.shape =~= v.shape.update(
        axis as int,
        (if start < end {
            ((end - start) + step - 1) / (step as int)
        } else {
            0
        }) as usize,
    ));
    assert(w.strides =~= v.strides.update(axis as int, (v.strides[axis as int] * step) as isize));
}

proof fn lemma_slice_step_checked(
    v: LayoutView,
    axis: usize,
    start: usize,
    end: usize,
    step: usize,
    es: int,
    i: nat,
)
    requires
        axis < i <= v.shape.len(),
        indexing_state(
            v.shape,
            v.strides,
            v.offset_bytes as int,
            slice_indexers(v.shape, axis, start, end, step),
            es,
            i,
        ) is Some,
    ensures
        step >= 1,
    decreases i,
{
    let ixs = slice_indexers(v.shape, axis, start, end, step);
    if i - 1 > axis {
        lemma_slice_step_checked(v, axis, start, end, step, es, (i - 1) as nat);
    } else {
        assert(indexer_for(ixs, axis as int, v.shape[axis as int]) == ixs[axis as int]);
    }
}

/// Transposing exchanges the sizes and strides of the two axes and keeps
/// every other dimension and the offset.
pub proof fn lemma_transpose_exchanges(v: LayoutView, a: usize, b: usize)
    requires
        layout_wf(v),
        a < v.shape.len(),
        b < v.shape.len(),
    ensures
        ({
            let w = permute_view(v, swapped_axes(v.shape.len() as usize, a, b));
            &&& w.shape == v.shape.update(a as int, v.shape[b as int]).update(b as int, v.shape[a as int])
            &&& w.strides == v.strides.update(a as int, v.strides[b as int]).update(
                b as int,
                v.strides[a as int],
            )
            &&& w.offset_bytes == v.offset_bytes
        }),
{
    let w = permute_view(v, swapped_axes(v.shape.len() as usize, a, b));
    assert(w.shape =~= v.shape.update(a as int, v.shape[b as int]).update(b as int, v.shape[a as int]));
    assert(w.strides =~= v.strides.update(a as int, v.strides[b as int]).update(
        b as int,
        v.strides[a as int],
    ));
}

} // verus!

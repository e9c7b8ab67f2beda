//! Fixed-capacity vectors of dimensions and strides, backed by `tinyvec::ArrayVec`.
use vstd::prelude::*;
use tinyvec::ArrayVec;

verus! {

/// The largest rank a tensor may have.
pub const MAX_RANK: usize = 12;

#[verifier::external_type_specification]
#[verifier::external_body]
#[verifier::reject_recursive_types(A)]
pub struct ExArrayVec<A>(ArrayVec<A>);

/// The elements held by a dimension vector, in order.
pub uninterp spec fn dims_contents(v: ArrayVec<[usize; MAX_RANK]>) -> Seq<usize>;

/// The elements held by a stride vector, in order.
pub uninterp spec fn strides_contents(v: ArrayVec<[isize; MAX_RANK]>) -> Seq<isize>;

/// `ArrayVec::new` for dimensions: the new vector holds nothing.
#[verifier::external_body]
pub(crate) fn dims_new() -> (v: ArrayVec<[usize; MAX_RANK]>)
    ensures
        dims_contents(v) == Seq::<usize>::empty(),
{
    ArrayVec::new()
}

/// `ArrayVec::push` for dimensions: appends `x`; it panics when the vector
/// is full, so callers keep fewer than `MAX_RANK` elements in it.
#[verifier::external_body]
pub(crate) fn dims_push(v: &mut ArrayVec<[usize; MAX_RANK]>, x: usize)
    requires
        dims_contents(*old(v)).len() < MAX_RANK,
    ensures
        dims_contents(*final(v)) == dims_contents(*old(v)).push(x),
{
    v.push(x)
}

/// `ArrayVec::as_slice` for dimensions: the slice shows the elements held.
#[verifier::external_body]
pub(crate) fn dims_as_slice(v: &ArrayVec<[usize; MAX_RANK]>) -> (s: &[usize])
    ensures
        s@ == dims_contents(*v),
{
    v.as_slice()
}

/// `ArrayVec::new` for strides: the new vector holds nothing.
#[verifier::external_body]
pub(crate) fn strides_new() -> (v: ArrayVec<[isize; MAX_RANK]>)
    ensures
        strides_contents(v) == Seq::<isize>::empty(),
{
    ArrayVec::new()
}

/// `ArrayVec::push` for strides: appends `x`; it panics when the vector is
/// full, so callers keep fewer than `MAX_RANK` elements in it.
#[verifier::external_body]
pub(crate) fn strides_push(v: &mut ArrayVec<[isize; MAX_RANK]>, x: isize)
    requires
        strides_contents(*old(v)).len() < MAX_RANK,
    ensures
        strides_contents(*final(v)) == strides_contents(*old(v)).push(x),
{
    v.push(x)
}

/// `ArrayVec::as_slice` for strides: the slice shows the elements held.
#[verifier::external_body]
pub(crate) fn strides_as_slice(v: &ArrayVec<[isize; MAX_RANK]>) -> (s: &[isize])
    ensures
        s@ == strides_contents(*v),
{
    v.as_slice()
}

/// Copies the elements of `s` into a new stride vector.
pub(crate) fn strides_from_slice(s: &[isize]) -> (v: ArrayVec<[isize; MAX_RANK]>)
    requires
        s@.len() <= MAX_RANK,
    ensures
        strides_contents(v) == s@,
{
    let mut v = strides_new();
    let mut i: usize = 0;
    while i < s.len()
        invariant
            i <= s@.len() <= MAX_RANK,
            strides_contents(v) == s@.take(i as int),
        decreases s@.len() - i,
    {
        strides_push(&mut v, s[i]);
        assert(s@.take(i as int).push(s@[i as int]) == s@.take(i + 1));
        i += 1;
    }
    assert(s@.take(s@.len() as int) == s@);
    v
}

} // verus!

//! Index expressions on tensors: integers, ranges and tuples of them.
use vstd::prelude::*;
use core::ops::{Range, RangeFrom, RangeFull, RangeInclusive, RangeTo};
use crate::error::Error;
use crate::layout::TensorIndexer;

verus! {

#[verifier::external_type_specification]
#[verifier::reject_recursive_types(Idx)]
pub struct ExRangeFrom<Idx>(RangeFrom<Idx>);

#[verifier::external_type_specification]
#[verifier::reject_recursive_types(Idx)]
pub struct ExRangeTo<Idx>(RangeTo<Idx>);

#[verifier::external_type_specification]
pub struct ExRangeFull(RangeFull);

/// `RangeInclusive::start`: the lower bound the range was made with, as
/// long as iteration has not exhausted it (its documentation leaves the
/// value unspecified afterwards).
pub assume_specification<Idx>[ RangeInclusive::<Idx>::start ](r: &RangeInclusive<Idx>) -> (s: &Idx)
    ensures
        !r@.exhausted ==> *s == r@.start,
;

/// `RangeInclusive::end`: the upper bound the range was made with, as long
/// as iteration has not exhausted it (its documentation leaves the value
/// unspecified afterwards).
pub assume_specification<Idx>[ RangeInclusive::<Idx>::end ](r: &RangeInclusive<Idx>) -> (e: &Idx)
    ensures
        !r@.exhausted ==> *e == r@.end,
;

/// The dimensions from position `cur` on, or none when `cur` is past the last.
pub open spec fn rest_shape(shape: Seq<usize>, cur: int) -> Seq<usize> {
    if cur < shape.len() {
        shape.subrange(cur, shape.len() as int)
    } else {
        Seq::empty()
    }
}

/// Appends the indexers of one more index to those found so far: the next
/// index sees the dimensions after the ones already indexed.
pub open spec fn then_index(
    prev: Option<Seq<TensorIndexer>>,
    next: spec_fn(Seq<usize>) -> Option<Seq<TensorIndexer>>,
    shape: Seq<usize>,
) -> Option<Seq<TensorIndexer>> {
    match prev {
        None => None,
        Some(p) => match next(rest_shape(shape, p.len() as int)) {
            None => None,
            Some(q) => Some(p + q),
        },
    }
}

/// A value that stands for a list of indexers of a tensor.
pub trait TensorIndex {
    /// Whether the indexers of this value are determined by what the
    /// specification can see of it.
    spec fn index_known(&self) -> bool;

    /// The indexers that this index stands for on a tensor of `shape`, or
    /// `None` when it cannot be converted.
    spec fn indexers_spec(&self, shape: Seq<usize>) -> Option<Seq<TensorIndexer>>;

    fn to_indexers(&self, shape: &[usize]) -> (r: Result<Vec<TensorIndexer>, Error>)
        ensures
            self.index_known() ==> match self.indexers_spec(shape@) {
                None => r matches Err(Error::InvalidShape(_)),
                Some(ixs) => r matches Ok(v) && v@ == ixs,
            };
}

fn single(ix: TensorIndexer) -> (v: Vec<TensorIndexer>)
    ensures
        v@ == seq![ix],
{
    let mut v: Vec<TensorIndexer> = Vec::new();
    v.push(ix);
    assert(v@ =~= seq![ix]);
    v
}

impl TensorIndex for usize {
    open spec fn index_known(&self) -> bool {
        true
    }

    open spec fn indexers_spec(&self, shape: Seq<usize>) -> Option<Seq<TensorIndexer>> {
        Some(seq![TensorIndexer::Select(*self)])
    }

    /// Selects one position of the first dimension.
    fn to_indexers(&self, shape: &[usize]) -> (r: Result<Vec<TensorIndexer>, Error>) {
        Ok(single(TensorIndexer::Select(*self)))
    }
}

impl TensorIndex for Range<usize> {
    open spec fn index_known(&self) -> bool {
        true
    }

    open spec fn indexers_spec(&self, shape: Seq<usize>) -> Option<Seq<TensorIndexer>> {
        Some(seq![TensorIndexer::Slice { start: self.start, end: self.end, step: 1 }])
    }

    /// Keeps the positions `start..end` of the first dimension.
    fn to_indexers(&self, shape: &[usize]) -> (r: Result<Vec<TensorIndexer>, Error>) {
        Ok(single(TensorIndexer::Slice { start: self.start, end: self.end, step: 1 }))
    }
}

impl TensorIndex for RangeInclusive<usize> {
    open spec fn index_known(&self) -> bool {
        !self@.exhausted
    }

    open spec fn indexers_spec(&self, shape: Seq<usize>) -> Option<Seq<TensorIndexer>> {
        if self@.end == usize::MAX {
            None
        } else {
            Some(seq![TensorIndexer::Slice { start: self@.start, end: (self@.end + 1) as usize, step: 1 }])
        }
    }

    /// Keeps the positions `start..=end` of the first dimension; an end of
    /// `usize::MAX` cannot be made exclusive and is refused.
    fn to_indexers(&self, shape: &[usize]) -> (r: Result<Vec<TensorIndexer>, Error>) {
        let start = *self.start();
        let end = match self.end().checked_add(1) {
            Some(e) => e,
            None => {
                return Err(Error::invalid_shape("RangeInclusive end overflow"));
            },
        };
        Ok(single(TensorIndexer::Slice { start, end, step: 1 }))
    }
}

impl TensorIndex for RangeFrom<usize> {
    open spec fn index_known(&self) -> bool {
        true
    }

    open spec fn indexers_spec(&self, shape: Seq<usize>) -> Option<Seq<TensorIndexer>> {
        if shape.len() == 0 {
            None
        } else {
            Some(seq![TensorIndexer::Slice { start: self.start, end: shape[0], step: 1 }])
        }
    }

    /// Keeps the positions from `start` to the end of the first dimension.
    fn to_indexers(&self, shape: &[usize]) -> (r: Result<Vec<TensorIndexer>, Error>) {
        if shape.len() == 0 {
            return Err(Error::invalid_shape("RangeFrom on 0-rank tensor or indexer mismatch"));
        }
        let dim = shape[0];
        Ok(single(TensorIndexer::Slice { start: self.start, end: dim, step: 1 }))
    }
}

impl TensorIndex for RangeTo<usize> {
    open spec fn index_known(&self) -> bool {
        true
    }

    open spec fn indexers_spec(&self, shape: Seq<usize>) -> Option<Seq<TensorIndexer>> {
        Some(seq![TensorIndexer::Slice { start: 0, end: self.end, step: 1 }])
    }

    /// Keeps the positions below `end` of the first dimension.
    fn to_indexers(&self, shape: &[usize]) -> (r: Result<Vec<TensorIndexer>, Error>) {
        Ok(single(TensorIndexer::Slice { start: 0, end: self.end, step: 1 }))
    }
}

impl TensorIndex for RangeFull {
    open spec fn index_known(&self) -> bool {
        true
    }

    open spec fn indexers_spec(&self, shape: Seq<usize>) -> Option<Seq<TensorIndexer>> {
        if shape.len() == 0 {
            Some(Seq::empty())
        } else {
            Some(seq![TensorIndexer::Slice { start: 0, end: shape[0], step: 1 }])
        }
    }

    /// Keeps the whole first dimension (and indexes nothing of a 0-rank tensor).
    fn to_indexers(&self, shape: &[usize]) -> (r: Result<Vec<TensorIndexer>, Error>) {
        if shape.len() == 0 {
            let v: Vec<TensorIndexer> = Vec::new();
            assert(v@ =~= Seq::<TensorIndexer>::empty());
            return Ok(v);
        }
        let dim = shape[0];
        Ok(single(TensorIndexer::Slice { start: 0, end: dim, step: 1 }))
    }
}

/// Converts `t` on the dimensions after those that `acc` already indexes,
/// and appends its indexers to `acc`.
fn append_index<T: TensorIndex>(t: &T, shape: &[usize], acc: Vec<TensorIndexer>) -> (r: Result<
    Vec<TensorIndexer>,
    Error,
>)
    ensures
        t.index_known() ==> match then_index(Some(acc@), |s: Seq<usize>| t.indexers_spec(s), shape@) {
            None => r matches Err(Error::InvalidShape(_)),
            Some(v) => r matches Ok(out) && out@ == v,
        },
{
    let cur = acc.len();
    let sub: &[usize] = if cur < shape.len() {
        vstd::slice::slice_subrange(shape, cur, shape.len())
    } else {
        vstd::slice::slice_subrange(shape, 0, 0)
    };
    assert(sub@ =~= rest_shape(shape@, cur as int));
    let more = match t.to_indexers(sub) {
        Ok(m) => m,
        Err(e) => {
            return Err(e);
        },
    };
    let mut out = acc;
    let ghost acc0 = out@;
    let mut i: usize = 0;
    while i < more.len()
        invariant
            i <= more@.len(),
            out@ =~= acc0 + more@.take(i as int),
        decreases more@.len() - i,
    {
        out.push(more[i]);
        i += 1;
    }
    assert(more@.take(more@.len() as int) =~= more@);
    Ok(out)
}

impl<A: TensorIndex> TensorIndex for (A,) {
    open spec fn index_known(&self) -> bool {
        self.0.index_known()
    }

    open spec fn indexers_spec(&self, shape: Seq<usize>) -> Option<Seq<TensorIndexer>> {
        then_index(Some(Seq::empty()), |s: Seq<usize>| self.0.indexers_spec(s), shape)
    }

    /// The indexers of the element.
    fn to_indexers(&self, shape: &[usize]) -> (r: Result<Vec<TensorIndexer>, Error>) {
        let acc: Vec<TensorIndexer> = Vec::new();
        assert(acc@ =~= Seq::<TensorIndexer>::empty());
        append_index(&self.0, shape, acc)
    }
}

impl<A: TensorIndex, B: TensorIndex> TensorIndex for (A, B) {
    open spec fn index_known(&self) -> bool {
        self.0.index_known() && self.1.index_known()
    }

    open spec fn indexers_spec(&self, shape: Seq<usize>) -> Option<Seq<TensorIndexer>> {
        then_index(
            then_index(
            Some(Seq::empty()),
            |s: Seq<usize>| self.0.indexers_spec(s),
            shape,
        ),
            |s: Seq<usize>| self.1.indexers_spec(s),
            shape,
        )
    }

    /// The indexers of the elements in turn, each on the dimensions left by those before it.
    fn to_indexers(&self, shape: &[usize]) -> (r: Result<Vec<TensorIndexer>, Error>) {
        let acc: Vec<TensorIndexer> = Vec::new();
        assert(acc@ =~= Seq::<TensorIndexer>::empty());
        let acc = match append_index(&self.0, shape, acc) {
            Ok(a) => a,
            Err(e) => {
                return Err(e);
            },
        };
        append_index(&self.1, shape, acc)
    }
}

impl<A: TensorIndex, B: TensorIndex, C: TensorIndex> TensorIndex for (A, B, C) {
    open spec fn index_known(&self) -> bool {
        self.0.index_known() && self.1.index_known() && self.2.index_known()
    }

    open spec fn indexers_spec(&self, shape: Seq<usize>) -> Option<Seq<TensorIndexer>> {
        then_index(
            then_index(
            then_index(
            Some(Seq::empty()),
            |s: Seq<usize>| self.0.indexers_spec(s),
            shape,
        ),
            |s: Seq<usize>| self.1.indexers_spec(s),
            shape,
        ),
            |s: Seq<usize>| self.2.indexers_spec(s),
            shape,
        )
    }

    /// The indexers of the elements in turn, each on the dimensions left by those before it.
    fn to_indexers(&self, shape: &[usize]) -> (r: Result<Vec<TensorIndexer>, Error>) {
        let acc: Vec<TensorIndexer> = Vec::new();
        assert(acc@ =~= Seq::<TensorIndexer>::empty());
        let acc = match append_index(&self.0, shape, acc) {
            Ok(a) => a,
            Err(e) => {
                return Err(e);
            },
        };
        let acc = match append_index(&self.1, shape, acc) {
            Ok(a) => a,
            Err(e) => {
                return Err(e);
            },
        };
        append_index(&self.2, shape, acc)
    }
}

impl<A: TensorIndex, B: TensorIndex, C: TensorIndex, D: TensorIndex> TensorIndex for (A, B, C, D) {
    open spec fn index_known(&self) -> bool {
        self.0.index_known() && self.1.index_known() && self.2.index_known() && self.3.index_known()
    }

    open spec fn indexers_spec(&self, shape: Seq<usize>) -> Option<Seq<TensorIndexer>> {
        then_index(
            then_index(
            then_index(
            then_index(
            Some(Seq::empty()),
            |s: Seq<usize>| self.0.indexers_spec(s),
            shape,
        ),
            |s: Seq<usize>| self.1.indexers_spec(s),
            shape,
        ),
            |s: Seq<usize>| self.2.indexers_spec(s),
            shape,
        ),
            |s: Seq<usize>| self.3.indexers_spec(s),
            shape,
        )
    }

    /// The indexers of the elements in turn, each on the dimensions left by those before it.
    fn to_indexers(&self, shape: &[usize]) -> (r: Result<Vec<TensorIndexer>, Error>) {
        let acc: Vec<TensorIndexer> = Vec::new();
        assert(acc@ =~= Seq::<TensorIndexer>::empty());
        let acc = match append_index(&self.0, shape, acc) {
            Ok(a) => a,
            Err(e) => {
                return Err(e);
            },
        };
        let acc = match append_index(&self.1, shape, acc) {
            Ok(a) => a,
            Err(e) => {
                return Err(e);
            },
        };
        let acc = match append_index(&self.2, shape, acc) {
            Ok(a) => a,
            Err(e) => {
                return Err(e);
            },
        };
        append_index(&self.3, shape, acc)
    }
}

impl<A: TensorIndex, B: TensorIndex, C: TensorIndex, D: TensorIndex, E: TensorIndex> TensorIndex for (A, B, C, D, E) {
    open spec fn index_known(&self) -> bool {
        self.0.index_known() && self.1.index_known() && self.2.index_known() && self.3.index_known() && self.4.index_known()
    }

    open spec fn indexers_spec(&self, shape: Seq<usize>) -> Option<Seq<TensorIndexer>> {
        then_index(
            then_index(
            then_index(
            then_index(
            then_index(
            Some(Seq::empty()),
            |s: Seq<usize>| self.0.indexers_spec(s),
            shape,
        ),
            |s: Seq<usize>| self.1.indexers_spec(s),
            shape,
        ),
            |s: Seq<usize>| self.2.indexers_spec(s),
            shape,
        ),
            |s: Seq<usize>| self.3.indexers_spec(s),
            shape,
        ),
            |s: Seq<usize>| self.4.indexers_spec(s),
            shape,
        )
    }

    /// The indexers of the elements in turn, each on the dimensions left by those before it.
    fn to_indexers(&self, shape: &[usize]) -> (r: Result<Vec<TensorIndexer>, Error>) {
        let acc: Vec<TensorIndexer> = Vec::new();
        assert(acc@ =~= Seq::<TensorIndexer>::empty());
        let acc = match append_index(&self.0, shape, acc) {
            Ok(a) => a,
            Err(e) => {
                return Err(e);
            },
        };
        let acc = match append_index(&self.1, shape, acc) {
            Ok(a) => a,
            Err(e) => {
                return Err(e);
            },
        };
        let acc = match append_index(&self.2, shape, acc) {
            Ok(a) => a,
            Err(e) => {
                return Err(e);
            },
        };
        let acc = match append_index(&self.3, shape, acc) {
            Ok(a) => a,
            Err(e) => {
                return Err(e);
            },
        };
        append_index(&self.4, shape, acc)
    }
}

impl<A: TensorIndex, B: TensorIndex, C: TensorIndex, D: TensorIndex, E: TensorIndex, F: TensorIndex> TensorIndex for (A, B, C, D, E, F) {
    open spec fn index_known(&self) -> bool {
        self.0.index_known() && self.1.index_known() && self.2.index_known() && self.3.index_known() && self.4.index_known() && self.5.index_known()
    }

    open spec fn indexers_spec(&self, shape: Seq<usize>) -> Option<Seq<TensorIndexer>> {
        then_index(
            then_index(
            then_index(
            then_index(
            then_index(
            then_index(
            Some(Seq::empty()),
            |s: Seq<usize>| self.0.indexers_spec(s),
            shape,
        ),
            |s: Seq<usize>| self.1.indexers_spec(s),
            shape,
        ),
            |s: Seq<usize>| self.2.indexers_spec(s),
            shape,
        ),
            |s: Seq<usize>| self.3.indexers_spec(s),
            shape,
        ),
            |s: Seq<usize>| self.4.indexers_spec(s),
            shape,
        ),
            |s: Seq<usize>| self.5.indexers_spec(s),
            shape,
        )
    }

    /// The indexers of the elements in turn, each on the dimensions left by those before it.
    fn to_indexers(&self, shape: &[usize]) -> (r: Result<Vec<TensorIndexer>, Error>) {
        let acc: Vec<TensorIndexer> = Vec::new();
        assert(acc@ =~= Seq::<TensorIndexer>::empty());
        let acc = match append_index(&self.0, shape, acc) {
            Ok(a) => a,
            Err(e) => {
                return Err(e);
            },
        };
        let acc = match append_index(&self.1, shape, acc) {
            Ok(a) => a,
            Err(e) => {
                return Err(e);
            },
        };
        let acc = match append_index(&self.2, shape, acc) {
            Ok(a) => a,
            Err(e) => {
                return Err(e);
            },
        };
        let acc = match append_index(&self.3, shape, acc) {
            Ok(a) => a,
            Err(e) => {
                return Err(e);
            },
        };
        let acc = match append_index(&self.4, shape, acc) {
            Ok(a) => a,
            Err(e) => {
                return Err(e);
            },
        };
        append_index(&self.5, shape, acc)
    }
}

/// Applies the index conversions `fs` in turn, each on the dimensions left
/// by those before it, starting from the indexers `prev`.
pub open spec fn chain_indexers(
    prev: Option<Seq<TensorIndexer>>,
    fs: Seq<spec_fn(Seq<usize>) -> Option<Seq<TensorIndexer>>>,
    shape: Seq<usize>,
) -> Option<Seq<TensorIndexer>>
    decreases fs.len(),
{
    if fs.len() == 0 {
        prev
    } else {
        chain_indexers(then_index(prev, fs[0], shape), fs.drop_first(), shape)
    }
}

proof fn lemma_chain_none(
    fs: Seq<spec_fn(Seq<usize>) -> Option<Seq<TensorIndexer>>>,
    shape: Seq<usize>,
)
    ensures
        chain_indexers(None, fs, shape) is None,
    decreases fs.len(),
{
    if fs.len() > 0 {
        lemma_chain_none(fs.drop_first(), shape);
    }
}

proof fn lemma_rest_rest(s: Seq<usize>, x: int, y: int)
    requires
        0 <= x,
        0 <= y,
    ensures
        rest_shape(rest_shape(s, x), y) == rest_shape(s, x + y),
{
    if x < s.len() {
        assert(rest_shape(rest_shape(s, x), y) =~= rest_shape(s, x + y));
    } else {
        assert(rest_shape(rest_shape(s, x), y) =~= rest_shape(s, x + y));
    }
}

proof fn lemma_chain_shift(
    p: Seq<TensorIndexer>,
    fs: Seq<spec_fn(Seq<usize>) -> Option<Seq<TensorIndexer>>>,
    shape: Seq<usize>,
)
    ensures
        chain_indexers(Some(p), fs, shape) == match chain_indexers(
            Some(Seq::<TensorIndexer>::empty()),
            fs,
            rest_shape(shape, p.len() as int),
        ) {
            None => None,
            Some(q) => Some(p + q),
        },
    decreases fs.len(),
{
    let e = Seq::<TensorIndexer>::empty();
    let t = rest_shape(shape, p.len() as int);
    if fs.len() == 0 {
        assert(p + e =~= p);
    } else {
        let f0 = fs[0];
        let rest = fs.drop_first();
        assert(rest_shape(t, 0) =~= t);
        match f0(t) {
            None => {
                lemma_chain_none(rest, shape);
                lemma_chain_none(rest, t);
            },
            Some(q) => {
                assert(then_index(Some(p), f0, shape) == Some(p + q));
                assert(then_index(Some(e), f0, t) == Some(e + q));
                lemma_chain_shift(p + q, rest, shape);
                lemma_chain_shift(e + q, rest, t);
                assert((e + q).len() == q.len());
                lemma_rest_rest(shape, p.len() as int, q.len() as int);
                assert((p + q).len() == p.len() + q.len());
                match chain_indexers(Some(e), rest, rest_shape(shape, (p + q).len() as int)) {
                    None => {},
                    Some(r) => {
                        assert((p + q) + r =~= p + ((e + q) + r));
                    },
                }
            },
        }
    }
}

proof fn lemma_chain_push(
    prev: Option<Seq<TensorIndexer>>,
    fs: Seq<spec_fn(Seq<usize>) -> Option<Seq<TensorIndexer>>>,
    f: spec_fn(Seq<usize>) -> Option<Seq<TensorIndexer>>,
    shape: Seq<usize>,
)
    ensures
        chain_indexers(prev, fs.push(f), shape) == then_index(chain_indexers(prev, fs, shape), f, shape),
    decreases fs.len(),
{
    let g = fs.push(f);
    if fs.len() == 0 {
        assert(g[0] == f);
        assert(g.drop_first() =~= Seq::<spec_fn(Seq<usize>) -> Option<Seq<TensorIndexer>>>::empty());
        assert(chain_indexers(prev, g, shape) == chain_indexers(
            then_index(prev, f, shape),
            g.drop_first(),
            shape,
        ));
        assert(chain_indexers(then_index(prev, f, shape), g.drop_first(), shape) == then_index(
            prev,
            f,
            shape,
        ));
        assert(chain_indexers(prev, fs, shape) == prev);
    } else {
        assert(g[0] == fs[0]);
        assert(g.drop_first() =~= fs.drop_first().push(f));
        lemma_chain_push(then_index(prev, fs[0], shape), fs.drop_first(), f, shape);
        assert(chain_indexers(prev, g, shape) == chain_indexers(
            then_index(prev, fs[0], shape),
            g.drop_first(),
            shape,
        ));
    }
}

/// The first conversion of a chain takes the whole shape; the others, as a
/// chain of their own, take the dimensions it leaves, and their indexers
/// follow its indexers.
proof fn lemma_chain_cons(
    f0: spec_fn(Seq<usize>) -> Option<Seq<TensorIndexer>>,
    fs: Seq<spec_fn(Seq<usize>) -> Option<Seq<TensorIndexer>>>,
    shape: Seq<usize>,
)
    ensures
        chain_indexers(Some(Seq::<TensorIndexer>::empty()), seq![f0] + fs, shape) == match f0(shape) {
            None => None,
            Some(p) => match chain_indexers(
                Some(Seq::<TensorIndexer>::empty()),
                fs,
                rest_shape(shape, p.len() as int),
            ) {
                None => None,
                Some(q) => Some(p + q),
            },
        },
{
    let e = Seq::<TensorIndexer>::empty();
    let all = seq![f0] + fs;
    assert(all[0] == f0);
    assert(all.drop_first() =~= fs);
    assert(rest_shape(shape, 0) =~= shape);
    match f0(shape) {
        None => {
            lemma_chain_none(fs, shape);
        },
        Some(p) => {
            assert(e + p =~= p);
            lemma_chain_shift(p, fs, shape);
        },
    }
}

proof fn lemma_tuple1_chain<A: TensorIndex>(x: (A,), shape: Seq<usize>)
    ensures
        x.indexers_spec(shape) == chain_indexers(
            Some(Seq::<TensorIndexer>::empty()),
            seq![|t: Seq<usize>| x.0.indexers_spec(t)],
            shape,
        ),
{
    let e = Seq::<TensorIndexer>::empty();
    let f0 = |t: Seq<usize>| x.0.indexers_spec(t);
    lemma_chain_push(Some(e), Seq::<spec_fn(Seq<usize>) -> Option<Seq<TensorIndexer>>>::empty(), f0, shape);
    assert(Seq::<spec_fn(Seq<usize>) -> Option<Seq<TensorIndexer>>>::empty().push(f0) =~= seq![f0]);
}

proof fn lemma_tuple2_chain<A: TensorIndex, B: TensorIndex>(x: (A, B), shape: Seq<usize>)
    ensures
        x.indexers_spec(shape) == chain_indexers(
            Some(Seq::<TensorIndexer>::empty()),
            seq![|t: Seq<usize>| x.0.indexers_spec(t), |t: Seq<usize>| x.1.indexers_spec(t)],
            shape,
        ),
{
    let e = Seq::<TensorIndexer>::empty();
    let f0 = |t: Seq<usize>| x.0.indexers_spec(t);
    let f1 = |t: Seq<usize>| x.1.indexers_spec(t);
    lemma_chain_push(Some(e), Seq::<spec_fn(Seq<usize>) -> Option<Seq<TensorIndexer>>>::empty(), f0, shape);
    lemma_chain_push(Some(e), Seq::<spec_fn(Seq<usize>) -> Option<Seq<TensorIndexer>>>::empty().push(f0), f1, shape);
    assert(Seq::<spec_fn(Seq<usize>) -> Option<Seq<TensorIndexer>>>::empty().push(f0).push(f1) =~= seq![f0, f1]);
}

proof fn lemma_tuple3_chain<A: TensorIndex, B: TensorIndex, C: TensorIndex>(x: (A, B, C), shape: Seq<usize>)
    ensures
        x.indexers_spec(shape) == chain_indexers(
            Some(Seq::<TensorIndexer>::empty()),
            seq![|t: Seq<usize>| x.0.indexers_spec(t), |t: Seq<usize>| x.1.indexers_spec(t), |t: Seq<usize>| x.2.indexers_spec(t)],
            shape,
        ),
{
    let e = Seq::<TensorIndexer>::empty();
    let f0 = |t: Seq<usize>| x.0.indexers_spec(t);
    let f1 = |t: Seq<usize>| x.1.indexers_spec(t);
    let f2 = |t: Seq<usize>| x.2.indexers_spec(t);
    lemma_chain_push(Some(e), Seq::<spec_fn(Seq<usize>) -> Option<Seq<TensorIndexer>>>::empty(), f0, shape);
    lemma_chain_push(Some(e), Seq::<spec_fn(Seq<usize>) -> Option<Seq<TensorIndexer>>>::empty().push(f0), f1, shape);
    lemma_chain_push(Some(e), Seq::<spec_fn(Seq<usize>) -> Option<Seq<TensorIndexer>>>::empty().push(f0).push(f1), f2, shape);
    assert(Seq::<spec_fn(Seq<usize>) -> Option<Seq<TensorIndexer>>>::empty().push(f0).push(f1).push(f2) =~= seq![f0, f1, f2]);
}

proof fn lemma_tuple4_chain<A: TensorIndex, B: TensorIndex, C: TensorIndex, D: TensorIndex>(x: (A, B, C, D), shape: Seq<usize>)
    ensures
        x.indexers_spec(shape) == chain_indexers(
            Some(Seq::<TensorIndexer>::empty()),
            seq![|t: Seq<usize>| x.0.indexers_spec(t), |t: Seq<usize>| x.1.indexers_spec(t), |t: Seq<usize>| x.2.indexers_spec(t), |t: Seq<usize>| x.3.indexers_spec(t)],
            shape,
        ),
{
    let e = Seq::<TensorIndexer>::empty();
    let f0 = |t: Seq<usize>| x.0.indexers_spec(t);
    let f1 = |t: Seq<usize>| x.1.indexers_spec(t);
    let f2 = |t: Seq<usize>| x.2.indexers_spec(t);
    let f3 = |t: Seq<usize>| x.3.indexers_spec(t);
    lemma_chain_push(Some(e), Seq::<spec_fn(Seq<usize>) -> Option<Seq<TensorIndexer>>>::empty(), f0, shape);
    lemma_chain_push(Some(e), Seq::<spec_fn(Seq<usize>) -> Option<Seq<TensorIndexer>>>::empty().push(f0), f1, shape);
    lemma_chain_push(Some(e), Seq::<spec_fn(Seq<usize>) -> Option<Seq<TensorIndexer>>>::empty().push(f0).push(f1), f2, shape);
    lemma_chain_push(Some(e), Seq::<spec_fn(Seq<usize>) -> Option<Seq<TensorIndexer>>>::empty().push(f0).push(f1).push(f2), f3, shape);
    assert(Seq::<spec_fn(Seq<usize>) -> Option<Seq<TensorIndexer>>>::empty().push(f0).push(f1).push(f2).push(f3) =~= seq![f0, f1, f2, f3]);
}

proof fn lemma_tuple5_chain<A: TensorIndex, B: TensorIndex, C: TensorIndex, D: TensorIndex, E: TensorIndex>(x: (A, B, C, D, E), shape: Seq<usize>)
    ensures
        x.indexers_spec(shape) == chain_indexers(
            Some(Seq::<TensorIndexer>::empty()),
            seq![|t: Seq<usize>| x.0.indexers_spec(t), |t: Seq<usize>| x.1.indexers_spec(t), |t: Seq<usize>| x.2.indexers_spec(t), |t: Seq<usize>| x.3.indexers_spec(t), |t: Seq<usize>| x.4.indexers_spec(t)],
            shape,
        ),
{
    let e = Seq::<TensorIndexer>::empty();
    let f0 = |t: Seq<usize>| x.0.indexers_spec(t);
    let f1 = |t: Seq<usize>| x.1.indexers_spec(t);
    let f2 = |t: Seq<usize>| x.2.indexers_spec(t);
    let f3 = |t: Seq<usize>| x.3.indexers_spec(t);
    let f4 = |t: Seq<usize>| x.4.indexers_spec(t);
    lemma_chain_push(Some(e), Seq::<spec_fn(Seq<usize>) -> Option<Seq<TensorIndexer>>>::empty(), f0, shape);
    lemma_chain_push(Some(e), Seq::<spec_fn(Seq<usize>) -> Option<Seq<TensorIndexer>>>::empty().push(f0), f1, shape);
    lemma_chain_push(Some(e), Seq::<spec_fn(Seq<usize>) -> Option<Seq<TensorIndexer>>>::empty().push(f0).push(f1), f2, shape);
    lemma_chain_push(Some(e), Seq::<spec_fn(Seq<usize>) -> Option<Seq<TensorIndexer>>>::empty().push(f0).push(f1).push(f2), f3, shape);
    lemma_chain_push(Some(e), Seq::<spec_fn(Seq<usize>) -> Option<Seq<TensorIndexer>>>::empty().push(f0).push(f1).push(f2).push(f3), f4, shape);
    assert(Seq::<spec_fn(Seq<usize>) -> Option<Seq<TensorIndexer>>>::empty().push(f0).push(f1).push(f2).push(f3).push(f4) =~= seq![f0, f1, f2, f3, f4]);
}

proof fn lemma_tuple6_chain<A: TensorIndex, B: TensorIndex, C: TensorIndex, D: TensorIndex, E: TensorIndex, F: TensorIndex>(x: (A, B, C, D, E, F), shape: Seq<usize>)
    ensures
        x.indexers_spec(shape) == chain_indexers(
            Some(Seq::<TensorIndexer>::empty()),
            seq![|t: Seq<usize>| x.0.indexers_spec(t), |t: Seq<usize>| x.1.indexers_spec(t), |t: Seq<usize>| x.2.indexers_spec(t), |t: Seq<usize>| x.3.indexers_spec(t), |t: Seq<usize>| x.4.indexers_spec(t), |t: Seq<usize>| x.5.indexers_spec(t)],
            shape,
        ),
{
    let e = Seq::<TensorIndexer>::empty();
    let f0 = |t: Seq<usize>| x.0.indexers_spec(t);
    let f1 = |t: Seq<usize>| x.1.indexers_spec(t);
    let f2 = |t: Seq<usize>| x.2.indexers_spec(t);
    let f3 = |t: Seq<usize>| x.3.indexers_spec(t);
    let f4 = |t: Seq<usize>| x.4.indexers_spec(t);
    let f5 = |t: Seq<usize>| x.5.indexers_spec(t);
    lemma_chain_push(Some(e), Seq::<spec_fn(Seq<usize>) -> Option<Seq<TensorIndexer>>>::empty(), f0, shape);
    lemma_chain_push(Some(e), Seq::<spec_fn(Seq<usize>) -> Option<Seq<TensorIndexer>>>::empty().push(f0), f1, shape);
    lemma_chain_push(Some(e), Seq::<spec_fn(Seq<usize>) -> Option<Seq<TensorIndexer>>>::empty().push(f0).push(f1), f2, shape);
    lemma_chain_push(Some(e), Seq::<spec_fn(Seq<usize>) -> Option<Seq<TensorIndexer>>>::empty().push(f0).push(f1).push(f2), f3, shape);
    lemma_chain_push(Some(e), Seq::<spec_fn(Seq<usize>) -> Option<Seq<TensorIndexer>>>::empty().push(f0).push(f1).push(f2).push(f3), f4, shape);
    lemma_chain_push(Some(e), Seq::<spec_fn(Seq<usize>) -> Option<Seq<TensorIndexer>>>::empty().push(f0).push(f1).push(f2).push(f3).push(f4), f5, shape);
    assert(Seq::<spec_fn(Seq<usize>) -> Option<Seq<TensorIndexer>>>::empty().push(f0).push(f1).push(f2).push(f3).push(f4).push(f5) =~= seq![f0, f1, f2, f3, f4, f5]);
}

/// An index that is a tuple of one element stands for the indexers of
/// that element.
pub proof fn lemma_tuple1_indexers<A: TensorIndex>(x: (A,), shape: Seq<usize>)
    ensures
        x.indexers_spec(shape) == x.0.indexers_spec(shape),
{
    lemma_tuple1_chain(x, shape);
    let f0 = |t: Seq<usize>| x.0.indexers_spec(t);
    lemma_chain_cons(f0, Seq::empty(), shape);
    assert(seq![f0] + Seq::<spec_fn(Seq<usize>) -> Option<Seq<TensorIndexer>>>::empty() =~= seq![f0]);
    match x.0.indexers_spec(shape) {
        None => {},
        Some(p) => {
            assert(p + Seq::<TensorIndexer>::empty() =~= p);
        },
    }
}

/// A tuple index stands for the indexers of its elements in tuple order:
/// the first element is converted on the whole shape, and the indexers of
/// the remaining elements (as a tuple of their own, converted on the
/// dimensions that the first one leaves) follow its indexers.
pub proof fn lemma_tuple2_indexers<A: TensorIndex, B: TensorIndex>(x: (A, B), shape: Seq<usize>)
    ensures
        x.indexers_spec(shape) == match x.0.indexers_spec(shape) {
            None => None,
            Some(p) => match (x.1,).indexers_spec(
                if p.len() < shape.len() {
                    shape.subrange(p.len() as int, shape.len() as int)
                } else {
                    Seq::empty()
                },
            ) {
                None => None,
                Some(q) => Some(p + q),
            },
        },
{
    let y = (x.1,);
    lemma_tuple2_chain(x, shape);
    let f0 = |t: Seq<usize>| x.0.indexers_spec(t);
    let f1 = |t: Seq<usize>| x.1.indexers_spec(t);
    assert(seq![f0, f1] =~= seq![f0] + seq![f1]);
    lemma_chain_cons(f0, seq![f1], shape);
    assert forall|t: Seq<usize>| y.indexers_spec(t) == chain_indexers(
        Some(Seq::<TensorIndexer>::empty()),
        seq![f1],
        t,
    ) by {
        lemma_tuple1_chain(y, t);
        assert(seq![|t: Seq<usize>| y.0.indexers_spec(t)] =~= seq![f1]);
    }
}

/// A tuple index stands for the indexers of its elements in tuple order:
/// the first element is converted on the whole shape, and the indexers of
/// the remaining elements (as a tuple of their own, converted on the
/// dimensions that the first one leaves) follow its indexers.
pub proof fn lemma_tuple3_indexers<A: TensorIndex, B: TensorIndex, C: TensorIndex>(x: (A, B, C), shape: Seq<usize>)
    ensures
        x.indexers_spec(shape) == match x.0.indexers_spec(shape) {
            None => None,
            Some(p) => match (x.1, x.2).indexers_spec(
                if p.len() < shape.len() {
                    shape.subrange(p.len() as int, shape.len() as int)
                } else {
                    Seq::empty()
                },
            ) {
                None => None,
                Some(q) => Some(p + q),
            },
        },
{
    let y = (x.1, x.2);
    lemma_tuple3_chain(x, shape);
    let f0 = |t: Seq<usize>| x.0.indexers_spec(t);
    let f1 = |t: Seq<usize>| x.1.indexers_spec(t);
    let f2 = |t: Seq<usize>| x.2.indexers_spec(t);
    assert(seq![f0, f1, f2] =~= seq![f0] + seq![f1, f2]);
    lemma_chain_cons(f0, seq![f1, f2], shape);
    assert forall|t: Seq<usize>| y.indexers_spec(t) == chain_indexers(
        Some(Seq::<TensorIndexer>::empty()),
        seq![f1, f2],
        t,
    ) by {
        lemma_tuple2_chain(y, t);
        assert(seq![|t: Seq<usize>| y.0.indexers_spec(t), |t: Seq<usize>| y.1.indexers_spec(t)] =~= seq![f1, f2]);
    }
}

/// A tuple index stands for the indexers of its elements in tuple order:
/// the first element is converted on the whole shape, and the indexers of
/// the remaining elements (as a tuple of their own, converted on the
/// dimensions that the first one leaves) follow its indexers.
pub proof fn lemma_tuple4_indexers<A: TensorIndex, B: TensorIndex, C: TensorIndex, D: TensorIndex>(x: (A, B, C, D), shape: Seq<usize>)
    ensures
        x.indexers_spec(shape) == match x.0.indexers_spec(shape) {
            None => None,
            Some(p) => match (x.1, x.2, x.3).indexers_spec(
                if p.len() < shape.len() {
                    shape.subrange(p.len() as int, shape.len() as int)
                } else {
                    Seq::empty()
                },
            ) {
                None => None,
                Some(q) => Some(p + q),
            },
        },
{
    let y = (x.1, x.2, x.3);
    lemma_tuple4_chain(x, shape);
    let f0 = |t: Seq<usize>| x.0.indexers_spec(t);
    let f1 = |t: Seq<usize>| x.1.indexers_spec(t);
    let f2 = |t: Seq<usize>| x.2.indexers_spec(t);
    let f3 = |t: Seq<usize>| x.3.indexers_spec(t);
    assert(seq![f0, f1, f2, f3] =~= seq![f0] + seq![f1, f2, f3]);
    lemma_chain_cons(f0, seq![f1, f2, f3], shape);
    assert forall|t: Seq<usize>| y.indexers_spec(t) == chain_indexers(
        Some(Seq::<TensorIndexer>::empty()),
        seq![f1, f2, f3],
        t,
    ) by {
        lemma_tuple3_chain(y, t);
        assert(seq![|t: Seq<usize>| y.0.indexers_spec(t), |t: Seq<usize>| y.1.indexers_spec(t), |t: Seq<usize>| y.2.indexers_spec(t)] =~= seq![f1, f2, f3]);
    }
}

/// A tuple index stands for the indexers of its elements in tuple order:
/// the first element is converted on the whole shape, and the indexers of
/// the remaining elements (as a tuple of their own, converted on the
/// dimensions that the first one leaves) follow its indexers.
pub proof fn lemma_tuple5_indexers<A: TensorIndex, B: TensorIndex, C: TensorIndex, D: TensorIndex, E: TensorIndex>(x: (A, B, C, D, E), shape: Seq<usize>)
    ensures
        x.indexers_spec(shape) == match x.0.indexers_spec(shape) {
            None => None,
            Some(p) => match (x.1, x.2, x.3, x.4).indexers_spec(
                if p.len() < shape.len() {
                    shape.subrange(p.len() as int, shape.len() as int)
                } else {
                    Seq::empty()
                },
            ) {
                None => None,
                Some(q) => Some(p + q),
            },
        },
{
    let y = (x.1, x.2, x.3, x.4);
    lemma_tuple5_chain(x, shape);
    let f0 = |t: Seq<usize>| x.0.indexers_spec(t);
    let f1 = |t: Seq<usize>| x.1.indexers_spec(t);
    let f2 = |t: Seq<usize>| x.2.indexers_spec(t);
    let f3 = |t: Seq<usize>| x.3.indexers_spec(t);
    let f4 = |t: Seq<usize>| x.4.indexers_spec(t);
    assert(seq![f0, f1, f2, f3, f4] =~= seq![f0] + seq![f1, f2, f3, f4]);
    lemma_chain_cons(f0, seq![f1, f2, f3, f4], shape);
    assert forall|t: Seq<usize>| y.indexers_spec(t) == chain_indexers(
        Some(Seq::<TensorIndexer>::empty()),
        seq![f1, f2, f3, f4],
        t,
    ) by {
        lemma_tuple4_chain(y, t);
        assert(seq![|t: Seq<usize>| y.0.indexers_spec(t), |t: Seq<usize>| y.1.indexers_spec(t), |t: Seq<usize>| y.2.indexers_spec(t), |t: Seq<usize>| y.3.indexers_spec(t)] =~= seq![f1, f2, f3, f4]);
    }
}

/// A tuple index stands for the indexers of its elements in tuple order:
/// the first element is converted on the whole shape, and the indexers of
/// the remaining elements (as a tuple of their own, converted on the
/// dimensions that the first one leaves) follow its indexers.
pub proof fn lemma_tuple6_indexers<A: TensorIndex, B: TensorIndex, C: TensorIndex, D: TensorIndex, E: TensorIndex, F: TensorIndex>(x: (A, B, C, D, E, F), shape: Seq<usize>)
    ensures
        x.indexers_spec(shape) == match x.0.indexers_spec(shape) {
            None => None,
            Some(p) => match (x.1, x.2, x.3, x.4, x.5).indexers_spec(
                if p.len() < shape.len() {
                    shape.subrange(p.len() as int, shape.len() as int)
                } else {
                    Seq::empty()
                },
            ) {
                None => None,
                Some(q) => Some(p + q),
            },
        },
{
    let y = (x.1, x.2, x.3, x.4, x.5);
    lemma_tuple6_chain(x, shape);
    let f0 = |t: Seq<usize>| x.0.indexers_spec(t);
    let f1 = |t: Seq<usize>| x.1.indexers_spec(t);
    let f2 = |t: Seq<usize>| x.2.indexers_spec(t);
    let f3 = |t: Seq<usize>| x.3.indexers_spec(t);
    let f4 = |t: Seq<usize>| x.4.indexers_spec(t);
    let f5 = |t: Seq<usize>| x.5.indexers_spec(t);
    assert(seq![f0, f1, f2, f3, f4, f5] =~= seq![f0] + seq![f1, f2, f3, f4, f5]);
    lemma_chain_cons(f0, seq![f1, f2, f3, f4, f5], shape);
    assert forall|t: Seq<usize>| y.indexers_spec(t) == chain_indexers(
        Some(Seq::<TensorIndexer>::empty()),
        seq![f1, f2, f3, f4, f5],
        t,
    ) by {
        lemma_tuple5_chain(y, t);
        assert(seq![|t: Seq<usize>| y.0.indexers_spec(t), |t: Seq<usize>| y.1.indexers_spec(t), |t: Seq<usize>| y.2.indexers_spec(t), |t: Seq<usize>| y.3.indexers_spec(t), |t: Seq<usize>| y.4.indexers_spec(t)] =~= seq![f1, f2, f3, f4, f5]);
    }
}

} // verus!

//! The bookkeeping of no-grad regions.
use vstd::prelude::*;

verus! {

/// The record of one no-grad region: the gradient flag that was in force
/// when it began, restored when it ends.
#[derive(Debug)]
pub struct NoGradGuard {
    prev: bool,
}

impl NoGradGuard {
    /// The flag in force when the region began.
    pub closed spec fn prev_spec(&self) -> bool {
        self.prev
    }

    /// Begins a no-grad region while the gradient flag is `current`: gives
    /// the guard, which remembers `current`, and the new flag, `false`.
    pub fn enter(current: bool) -> (r: (NoGradGuard, bool))
        ensures
            r.0.prev_spec() == current,
            r.1 == false,
    {
        (NoGradGuard { prev: current }, false)
    }

    /// The flag to put back when the region ends.
    pub fn restore(&self) -> (b: bool)
        ensures
            b == self.prev_spec(),
    {
        self.prev
    }
}

/// Regions nest: entering two regions from flag `f` and ending them in
/// reverse order gives `false` after the inner one and `f` after the outer one.
pub proof fn lemma_nested_regions_restore(f: bool, outer: NoGradGuard, inner: NoGradGuard, f1: bool)
    requires
        outer.prev_spec() == f,
        f1 == false,
        inner.prev_spec() == f1,
    ensures
        inner.prev_spec() == false,
        outer.prev_spec() == f,
{
}

} // verus!

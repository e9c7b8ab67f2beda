//! Deterministic shuffling of sample indices.
use vstd::prelude::*;

verus! {

/// The multiplier of the linear congruential generator that drives shuffling.
pub const LCG_MUL: u64 = 6364136223846793005;

/// One step of the generator: `seed * LCG_MUL + 1`, wrapping.
pub open spec fn lcg_next(seed: u64) -> u64 {
    vstd::wrapping::u64_specs::wrapping_add(vstd::wrapping::u64_specs::wrapping_mul(seed, LCG_MUL), 1)
}

/// `s` with the elements at `i` and `j` exchanged.
pub open spec fn swap_spec(s: Seq<usize>, i: int, j: int) -> Seq<usize> {
    s.update(i, s[j]).update(j, s[i])
}

/// The sequence and seed after the first `k` steps of the shuffle; step
/// `k` (from 1) handles position `len - k` and swaps it with a position
/// at or below it.
pub open spec fn shuffle_state(s: Seq<usize>, seed: u64, k: nat) -> (Seq<usize>, u64)
    decreases k,
{
    if k == 0 {
        (s, seed)
    } else {
        let (t, sd) = shuffle_state(s, seed, (k - 1) as nat);
        let i = s.len() - k;
        let next = lcg_next(sd);
        let j = (next as usize) as int % (i + 1);
        (swap_spec(t, i, j), next)
    }
}

/// The result of shuffling `s` with `seed`.
pub open spec fn shuffle_spec(s: Seq<usize>, seed: u64) -> Seq<usize> {
    if s.len() <= 1 {
        s
    } else {
        shuffle_state(s, seed, (s.len() - 1) as nat).0
    }
}

/// Shuffles `idxs` in place, Fisher-Yates style, with a linear congruential
/// generator seeded by `seed`; the same seed always gives the same order.
pub fn shuffle_in_place(idxs: &mut [usize], seed: u64)
    ensures
        final(idxs)@ == shuffle_spec(old(idxs)@, seed),
{
    let ghost s0 = idxs@;
    let n = idxs.len();
    if n <= 1 {
        return;
    }
    let mut seed = seed;
    let ghost seed0 = seed;
    let mut k: usize = 1;
    while k < n
        invariant
            n == idxs@.len() == s0.len(),
            n >= 2,
            1 <= k <= n,
            shuffle_state(s0, seed0, (k - 1) as nat) == (idxs@, seed),
        decreases n - k,
    {
        let i = n - k;
        seed = seed.wrapping_mul(LCG_MUL).wrapping_add(1);
        let j = (seed as usize) % (i + 1);
        let a = idxs[i];
        let b = idxs[j];
        idxs[i] = b;
        idxs[j] = a;
        k += 1;
    }
}

/// Shuffling only reorders: the result holds the same elements, each as
/// often as before.
pub proof fn lemma_shuffle_is_permutation(s: Seq<usize>, seed: u64)
    ensures
        shuffle_spec(s, seed).to_multiset() == s.to_multiset(),
        shuffle_spec(s, seed).len() == s.len(),
{
    if s.len() > 1 {
        lemma_shuffle_state_permutation(s, seed, (s.len() - 1) as nat);
    }
}

proof fn lemma_shuffle_state_permutation(s: Seq<usize>, seed: u64, k: nat)
    requires
        k < s.len(),
    ensures
        shuffle_state(s, seed, k).0.to_multiset() == s.to_multiset(),
        shuffle_state(s, seed, k).0.len() == s.len(),
    decreases k,
{
    if k > 0 {
        lemma_shuffle_state_permutation(s, seed, (k - 1) as nat);
        let (t, sd) = shuffle_state(s, seed, (k - 1) as nat);
        let i = s.len() - k;
        let next = lcg_next(sd);
        let j = (next as usize) as int % (i + 1);
        lemma_swap_permutation(t, i, j);
    }
}

/// Exchanging two elements keeps the multiset of elements.
pub proof fn lemma_swap_permutation(s: Seq<usize>, i: int, j: int)
    requires
        0 <= i < s.len(),
        0 <= j < s.len(),
    ensures
        swap_spec(s, i, j).to_multiset() == s.to_multiset(),
        swap_spec(s, i, j).len() == s.len(),
{
    let s1 = s.update(i, s[j]);
    vstd::seq_lib::to_multiset_update(s, i, s[j]);
    vstd::seq_lib::to_multiset_update(s1, j, s[i]);
    assert(s1[j] == s[j]);
    let m = s.to_multiset();
    broadcast use vstd::multiset::group_multiset_axioms;
    broadcast use vstd::seq_lib::group_to_multiset_ensures;
    assert(s.contains(s[i]));
    assert(m.count(s[i]) > 0);
    assert(m.insert(s[j]).remove(s[i]).insert(s[i]).remove(s[j]) =~= m);
}

/// Shuffling a sequence of at most one element leaves it as it is.
pub proof fn lemma_shuffle_short(s: Seq<usize>, seed: u64)
    requires
        s.len() <= 1,
    ensures
        shuffle_spec(s, seed) == s,
{
}

/// Fisher-Yates from the back: shuffling `s` (at least two elements) steps
/// the generator once, swaps the last element with the one at
/// `next % len`, and then shuffles all the elements before the last one
/// with the new seed, leaving the last one in place. With the previous law
/// this fixes every step: each position from `len - 1` down to `1` gets one
/// generator step and one swap.
pub proof fn lemma_shuffle_step(s: Seq<usize>, seed: u64)
    requires
        2 <= s.len() <= usize::MAX,
    ensures
        ({
            let n = s.len() as int;
            let next = vstd::wrapping::u64_specs::wrapping_add(
                vstd::wrapping::u64_specs::wrapping_mul(seed, LCG_MUL),
                1,
            );
            let j = (next as usize) as int % n;
            let t = s.update(n - 1, s[j]).update(j, s[n - 1]);
            shuffle_spec(s, seed) == shuffle_spec(t.take(n - 1), next).push(t[n - 1])
        }),
{
    let n = s.len() as int;
    let next = lcg_next(seed);
    let j = (next as usize) as int % n;
    let t = s.update(n - 1, s[j]).update(j, s[n - 1]);
    let tt = t.take(n - 1);
    lemma_shuffle_state_split(s, seed, (n - 1) as nat);
    if n == 2 {
        assert(shuffle_spec(tt, next) == tt);
    }
}

proof fn lemma_shuffle_state_split(s: Seq<usize>, seed: u64, k: nat)
    requires
        2 <= s.len() <= usize::MAX,
        1 <= k <= s.len() - 1,
    ensures
        ({
            let n = s.len() as int;
            let next = lcg_next(seed);
            let j = (next as usize) as int % n;
            let t = s.update(n - 1, s[j]).update(j, s[n - 1]);
            let tt = t.take(n - 1);
            let (u, sd) = shuffle_state(tt, next, (k - 1) as nat);
            shuffle_state(s, seed, k) == (u.push(t[n - 1]), sd) && u.len() == n - 1
        }),
    decreases k,
{
    let n = s.len() as int;
    let next = lcg_next(seed);
    let j = (next as usize) as int % n;
    let t = s.update(n - 1, s[j]).update(j, s[n - 1]);
    let tt = t.take(n - 1);
    if k == 1 {
        assert(shuffle_state(s, seed, 0) == (s, seed));
        assert(swap_spec(s, n - 1, j) == t);
        assert(tt.push(t[n - 1]) =~= t);
    } else {
        lemma_shuffle_state_split(s, seed, (k - 1) as nat);
        let (u, sd) = shuffle_state(tt, next, (k - 2) as nat);
        lemma_shuffle_state_permutation(tt, next, (k - 2) as nat);
        let i = n - k;
        let next2 = lcg_next(sd);
        let j2 = (next2 as usize) as int % (i + 1);
        assert(tt.len() - (k - 1) == i);
        assert(0 <= j2 <= i);
        assert(swap_spec(u.push(t[n - 1]), i, j2) =~= swap_spec(u, i, j2).push(t[n - 1]));
    }
}

} // verus!

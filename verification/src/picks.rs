//! What it means to pick items out of a sequence, in order.

use vstd::prelude::*;

verus! {

/// `at` holds the positions below `n` at which `p` holds of something, in
/// order, and `r` what it holds of there.
pub open spec fn picked_at<T>(n: int, p: spec_fn(int, T) -> bool, r: Seq<T>, at: Seq<int>) -> bool {
    &&& at.len() == r.len()
    &&& forall|i: int| 0 <= i < at.len() ==> 0 <= #[trigger] at[i] < n && p(at[i], r[i])
    &&& forall|i: int, j: int| 0 <= i < j < at.len() ==> #[trigger] at[i] < #[trigger] at[j]
    &&& forall|k: int, t: T| 0 <= k < n && #[trigger] p(k, t) ==> at.contains(k)
}

/// `r` has exactly one item for each position below `n` at which `p` holds of
/// something: one that it holds of there. The items stand in the order of their
/// positions.
pub open spec fn picks<T>(n: int, p: spec_fn(int, T) -> bool, r: Seq<T>) -> bool {
    exists|at: Seq<int>| #[trigger] picked_at(n, p, r, at)
}

/// Nothing is picked from nothing.
pub proof fn lemma_pick_start<T>(p: spec_fn(int, T) -> bool)
    ensures
        picks(0, p, Seq::<T>::empty()),
{
    assert(picked_at(0, p, Seq::<T>::empty(), Seq::<int>::empty()));
}

/// One more position at which `p` holds of nothing.
pub proof fn lemma_pick_none<T>(n: int, p: spec_fn(int, T) -> bool, r: Seq<T>)
    requires
        picks(n, p, r),
        forall|t: T| !#[trigger] p(n, t),
    ensures
        picks(n + 1, p, r),
{
    let at = choose|at: Seq<int>| #[trigger] picked_at(n, p, r, at);
    assert forall|k: int, t: T| 0 <= k < n + 1 && #[trigger] p(k, t) implies at.contains(k) by {
        assert(k != n);
    }
    assert(picked_at(n + 1, p, r, at));
}

/// One more position at which `p` holds of something.
pub proof fn lemma_pick_one<T>(n: int, p: spec_fn(int, T) -> bool, r: Seq<T>, t: T)
    requires
        0 <= n,
        picks(n, p, r),
        p(n, t),
    ensures
        picks(n + 1, p, r.push(t)),
{
    let at = choose|at: Seq<int>| #[trigger] picked_at(n, p, r, at);
    let more = at.push(n);
    assert forall|k: int, x: T| 0 <= k < n + 1 && #[trigger] p(k, x) implies more.contains(k) by {
        if k == n {
            assert(more[at.len() as int] == n);
        } else {
            let q = choose|q: int| 0 <= q < at.len() && at[q] == k;
            assert(more[q] == k);
        }
    }
    assert(picked_at(n + 1, p, r.push(t), more));
}

} // verus!

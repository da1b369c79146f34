//! Seed-deterministic Monte-Carlo ensembles.
//!
//! Every member derives all its randomness from its index, and the results
//! come back in index order, so that an ensemble and every reduction over it
//! are the same whatever the number of worker threads.
use rayon::iter::{IntoParallelIterator, ParallelIterator};
use vstd::prelude::*;

verus! {

/// `out` are the results of the members `0..n` of an ensemble, in index order.
pub open spec fn is_ensemble<T, F: Fn(u64) -> T>(n: nat, f: F, out: Seq<T>) -> bool {
    &&& out.len() == n
    &&& forall|i: int| 0 <= i < n ==> call_ensures(f, (i as u64,), #[trigger] out[i])
}

/// `rayon::iter::ParallelIterator::collect` over `map(f)` of the parallel range
/// `0..n`: one call of `f` for each index, on whatever thread is free, and a
/// vector that holds the results in index order.
#[verifier::external_body]
fn parallel_map<T: Send, F: Fn(u64) -> T + Sync + Send>(n: usize, f: F) -> (out: Vec<T>)
    requires
        forall|i: u64| i < n ==> #[trigger] call_requires(f, (i,)),
    ensures
        is_ensemble(n as nat, f, out@),
{
    (0..n as u64).into_par_iter().map(f).collect()
}

/// Run `n` ensemble members, member `i` being `f(i)`, and return their results
/// in index order.
pub fn seeded_ensemble<T: Send, F: Fn(u64) -> T + Sync + Send>(n: usize, f: F) -> (out: Vec<T>)
    requires
        forall|i: u64| i < n ==> #[trigger] call_requires(f, (i,)),
    ensures
        is_ensemble(n as nat, f, out@),
{
    parallel_map(n, f)
}

/// An ensemble whose members depend on their index alone has one result, however
/// often and on however many threads it is run.
pub proof fn law_members_fix_the_ensemble<T, F: Fn(u64) -> T>(n: nat, f: F, a: Seq<T>, b: Seq<T>)
    requires
        forall|i: u64, x: T, y: T| #[trigger]
            call_ensures(f, (i,), x) && #[trigger] call_ensures(f, (i,), y) ==> x == y,
        is_ensemble(n, f, a),
        is_ensemble(n, f, b),
    ensures
        a == b,
{
    assert forall|i: int| 0 <= i < n implies #[trigger] a[i] == b[i] by {
        assert(call_ensures(f, (i as u64,), a[i]));
        assert(call_ensures(f, (i as u64,), b[i]));
    }
    assert(a =~= b);
}

/// A larger ensemble starts with the members of a smaller one.
pub proof fn law_more_members_keep_the_first<T, F: Fn(u64) -> T>(
    n: nat,
    more: nat,
    f: F,
    a: Seq<T>,
    b: Seq<T>,
)
    requires
        forall|i: u64, x: T, y: T| #[trigger]
            call_ensures(f, (i,), x) && #[trigger] call_ensures(f, (i,), y) ==> x == y,
        n <= more,
        is_ensemble(n, f, a),
        is_ensemble(more, f, b),
    ensures
        a == b.subrange(0, n as int),
{
    assert forall|i: int| 0 <= i < n implies #[trigger] a[i] == b[i] by {
        assert(call_ensures(f, (i as u64,), a[i]));
        assert(call_ensures(f, (i as u64,), b[i]));
    }
    assert(a =~= b.subrange(0, n as int));
}

} // verus!

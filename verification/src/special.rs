//! Logarithm of the gamma function, by a series above one half and by reflection
//! below it.
use vstd::prelude::*;

verus! {

/// Terms of the series behind the first.
pub const GAMMA_TERMS: usize = 8;

/// The arithmetic of the gamma function.
pub trait Gamma: Sized {
    type Real: Copy;

    fn minus(&self, a: Self::Real, b: Self::Real) -> Self::Real;

    /// Whether the argument is reflected: `x < 1/2`.
    fn is_reflected(&self, x: Self::Real) -> bool;

    /// The argument on the other side of one half.
    fn mirror(&self, x: Self::Real) -> Self::Real;

    /// Logarithm of the product of the gamma function at `x` and at its mirror.
    fn log_product(&self, x: Self::Real) -> Self::Real;

    /// First term of the series.
    fn first_term(&self) -> Self::Real;

    /// The series with term `i` at `x` added.
    fn add_term(&self, series: Self::Real, x: Self::Real, i: usize) -> Self::Real;

    /// Logarithm of the gamma function at `x` from its series.
    fn from_series(&self, x: Self::Real, series: Self::Real) -> Self::Real;
}

pub open spec fn is_term<K: Gamma>(k: K, x: K::Real, run: Seq<K::Real>, i: int) -> bool {
    call_ensures(K::add_term, (&k, run[i], x, (i + 1) as usize), run[i + 1])
}

/// `run[i]` is the series up to term `i`.
pub open spec fn is_series<K: Gamma>(k: K, x: K::Real, run: Seq<K::Real>) -> bool {
    &&& 0 < run.len() <= GAMMA_TERMS + 1
    &&& call_ensures(K::first_term, (&k,), run[0])
    &&& forall|i: int| 0 <= i < run.len() - 1 ==> #[trigger] is_term(k, x, run, i)
}

/// `y` is the logarithm of the gamma function by its series.
pub open spec fn is_direct<K: Gamma>(k: K, x: K::Real, y: K::Real) -> bool {
    exists|run: Seq<K::Real>| #[trigger]
        is_series(k, x, run) && run.len() == GAMMA_TERMS + 1 && call_ensures(
            K::from_series,
            (&k, x, run.last()),
            y,
        )
}

/// What [`ln_gamma`] may return.
pub open spec fn is_ln_gamma<K: Gamma>(k: K, x: K::Real, y: K::Real) -> bool {
    ||| call_ensures(K::is_reflected, (&k, x), false) && is_direct(k, x, y)
    ||| call_ensures(K::is_reflected, (&k, x), true) && exists|
        other: K::Real,
        far: K::Real,
        product: K::Real,
    |
        {
            &&& #[trigger] call_ensures(K::mirror, (&k, x), other)
            &&& #[trigger] is_direct(k, other, far)
            &&& #[trigger] call_ensures(K::log_product, (&k, x), product)
            &&& call_ensures(K::minus, (&k, product, far), y)
        }
}

fn direct<K: Gamma>(k: &K, x: K::Real) -> (y: K::Real)
    ensures
        is_direct(*k, x, y),
{
    let mut series: K::Real = k.first_term();
    let ghost mut run: Seq<K::Real> = seq![series];
    for i in 0..GAMMA_TERMS
        invariant
            run.len() == i + 1,
            run.last() == series,
            is_series(*k, x, run),
    {
        let next: K::Real = k.add_term(series, x, i + 1);
        proof {
            let r2 = run.push(next);
            assert forall|l: int| 0 <= l < r2.len() - 1 implies #[trigger] is_term(*k, x, r2, l) by {
                if l < i {
                    assert(is_term(*k, x, run, l));
                }
            }
            run = r2;
        }
        series = next;
    }
    k.from_series(x, series)
}

/// Logarithm of the gamma function.
pub fn ln_gamma<K: Gamma>(k: &K, x: K::Real) -> (y: K::Real)
    ensures
        is_ln_gamma(*k, x, y),
{
    if k.is_reflected(x) {
        let product: K::Real = k.log_product(x);
        let other: K::Real = k.mirror(x);
        let far: K::Real = direct(k, other);
        proof {
            assert(is_direct(*k, other, far));
        }
        k.minus(product, far)
    } else {
        direct(k, x)
    }
}

} // verus!

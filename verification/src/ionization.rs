//! What the growth of the electrons keeps.
//!
//! A slice of a pulse is the exact solution of the logistic equation at constant
//! rates. So slices compose, without growth or depletion nothing but the loss acts,
//! and full ionization is a ceiling. The laws hold in a measure in which the
//! arithmetic of [`Kinetics`] is exact.
use crate::algebra::{
    lemma_associates, lemma_cancels, lemma_commutes, lemma_distributes, lemma_keeps_order,
    lemma_negates, lemma_positive, lemma_reads_order,
};
use crate::breakdown0d::{Kinetics, Model, Pulse, Rates};
use crate::walls::magnitude;
use vstd::prelude::*;

verus! {

/// A measure of exact arithmetic.
#[verifier::reject_recursive_types(R)]
pub struct Exact<R> {
    /// What a number is worth.
    pub worth: spec_fn(R) -> real,
    /// The exponential.
    pub expo: spec_fn(real) -> real,
    /// The largest exponent that is used.
    pub top: real,
    /// Exponents below this are not divided by.
    pub tiny: real,
}

/// The exponential of a sum is the product of the exponentials.
pub open spec fn multiplies(expo: spec_fn(real) -> real, a: real, b: real) -> bool {
    expo(a + b) == expo(a) * expo(b)
}

/// An exponential: it takes sums to products, and lies above its tangent at zero.
pub open spec fn is_exponential(expo: spec_fn(real) -> real) -> bool {
    &&& expo(0real) == 1real
    &&& forall|a: real, b: real| #[trigger] multiplies(expo, a, b)
    &&& forall|a: real| #[trigger] expo(a) >= 1real + a && expo(a) > 0real
}

/// The arithmetic of the kinetics is exact in a measure.
#[verifier::opaque]
pub open spec fn is_exact<K: Kinetics>(k: K, x: Exact<K::Real>) -> bool {
    let worth = x.worth;
    &&& is_exponential(x.expo)
    &&& 0real < x.tiny <= x.top
    &&& forall|a: K::Real| #[trigger] call_ensures(K::zero, (&k,), a) ==> worth(a) == 0real
    &&& forall|a: K::Real, b: K::Real, c: K::Real| #[trigger]
        call_ensures(K::plus, (&k, a, b), c) ==> worth(c) == worth(a) + worth(b)
    &&& forall|a: K::Real, b: K::Real, c: K::Real| #[trigger]
        call_ensures(K::minus, (&k, a, b), c) ==> worth(c) == worth(a) - worth(b)
    &&& forall|a: K::Real, b: K::Real, c: K::Real| #[trigger]
        call_ensures(K::times, (&k, a, b), c) ==> worth(c) == worth(a) * worth(b)
    &&& forall|a: K::Real, b: K::Real, c: K::Real| #[trigger]
        call_ensures(K::ratio, (&k, a, b), c) && worth(b) != 0real ==> worth(c) * worth(b) == worth(
            a,
        )
    &&& forall|a: K::Real, c: K::Real| #[trigger]
        call_ensures(K::negate, (&k, a), c) ==> worth(c) == 0real - worth(a)
    &&& forall|a: K::Real, c: K::Real| #[trigger]
        call_ensures(K::exponential, (&k, a), c) ==> worth(c) == (x.expo)(worth(a))
    &&& forall|a: K::Real, c: K::Real| #[trigger]
        call_ensures(K::exponential_gain, (&k, a), c) ==> worth(c) == (x.expo)(worth(a)) - 1real
    &&& forall|a: K::Real, c: K::Real| #[trigger]
        call_ensures(K::capped, (&k, a), c) ==> worth(c) == if worth(a) < x.top {
            worth(a)
        } else {
            x.top
        }
    &&& forall|a: K::Real, r: bool| #[trigger]
        call_ensures(K::is_negligible, (&k, a), r) ==> r == (magnitude(worth(a)) < x.tiny)
    &&& forall|a: K::Real, b: K::Real, r: bool| #[trigger]
        call_ensures(K::is_at_most, (&k, a, b), r) ==> r == (worth(a) <= worth(b))
    &&& forall|a: K::Real, r: bool| #[trigger]
        call_ensures(K::is_positive, (&k, a), r) ==> r == (worth(a) > 0real)
    &&& forall|a: K::Real, r: bool| #[trigger]
        call_ensures(K::is_valid, (&k, a), r) ==> r == (worth(a) > 0real)
    &&& forall|a: K::Real, r: bool| #[trigger]
        call_ensures(K::is_zero, (&k, a), r) ==> r == (worth(a) == 0real)
    &&& forall|a: K::Real, b: K::Real, c: K::Real| #[trigger]
        call_ensures(K::smaller, (&k, a, b), c) ==> worth(c) == if worth(a) < worth(b) {
            worth(a)
        } else {
            worth(b)
        }
    &&& forall|a: K::Real, b: K::Real, c: K::Real| #[trigger]
        call_ensures(K::larger, (&k, a, b), c) ==> worth(c) == if worth(a) < worth(b) {
            worth(b)
        } else {
            worth(a)
        }
}

/// What a slice does to a density above zero.
pub struct Slice {
    /// What the inverse of the density decays to.
    pub decay: real,
    /// The decay integrated over the slice.
    pub span: real,
}

/// An exponential grows: it is at least one from zero on, at most one up to zero.
proof fn lemma_exponential_side(expo: spec_fn(real) -> real, a: real)
    requires
        is_exponential(expo),
    ensures
        a >= 0real ==> expo(a) >= 1real,
        a <= 0real ==> expo(a) <= 1real,
        expo(a) * expo(0real - a) == 1real,
{
    assert(multiplies(expo, a, 0real - a));
    assert(a + (0real - a) == 0real);
    if a <= 0real {
        let (e, f) = (expo(a), expo(0real - a));
        assert(f >= 1real);
        lemma_keeps_order(1real, f, e);
        assert(1real * e == e && e * 1real == e);
    }
}

/// The exponent of a slice, and its slice: the density is divided by the decay and the
/// depletion over the span.
pub open spec fn is_slice<R>(x: Exact<R>, growth: real, dt: real, s: Slice) -> bool {
    let e = 0real - growth * dt;
    &&& s.decay == (x.expo)(if e < x.top {
        e
    } else {
        x.top
    })
    &&& if magnitude(growth * dt) < x.tiny {
        s.span == dt
    } else {
        s.span * growth == 1real - s.decay
    }
    &&& s.decay > 0real
    &&& s.span >= 0real
}

/// The growth of a density above zero is logistic.
proof fn lemma_growth_is_logistic<K: Kinetics>(
    m: Model<K>,
    rates: Rates<K::Real>,
    n_e: K::Real,
    dt: K::Real,
    next: K::Real,
    x: Exact<K::Real>,
) -> (s: Slice)
    requires
        is_exact(m.kinetics, x),
        m.is_grown(rates, n_e, dt, next),
        (x.worth)(n_e) > 0real,
        (x.worth)(dt) >= 0real,
        (x.worth)(rates.depletion) >= 0real,
    ensures
        is_slice(x, (x.worth)(rates.growth), (x.worth)(dt), s),
        ({
            let d = s.decay + ((x.worth)(rates.depletion) * (x.worth)(n_e)) * s.span;
            d > 0real && (x.worth)(next) * d == (x.worth)(n_e)
        }),
        (x.worth)(next) > 0real,
{
    reveal(is_exact);
    let worth = x.worth;
    let (y, neg, denom) = choose|y: K::Real, neg: K::Real, denom: K::Real| #[trigger]
        m.is_denominator(rates, n_e, dt, y, neg, denom) && m.is_quotient(n_e, y, denom, next);
    let (decay, load, factor, drag) = choose|
        decay: K::Real,
        load: K::Real,
        factor: K::Real,
        drag: K::Real,
    |
        {
            &&& #[trigger] call_ensures(K::exponential, (&m.kinetics, neg), decay)
            &&& call_ensures(K::times, (&m.kinetics, rates.depletion, n_e), load)
            &&& m.is_span(y, neg, rates.growth, dt, factor)
            &&& #[trigger] call_ensures(K::times, (&m.kinetics, load, factor), drag)
            &&& call_ensures(K::plus, (&m.kinetics, decay, drag), denom)
        };
    let (g, t, n, k) = (worth(rates.growth), worth(dt), worth(n_e), worth(rates.depletion));
    let (e, f) = (worth(decay), worth(factor));
    let s = Slice { decay: e, span: f };
    assert(worth(y) == g * t);
    assert(e == (x.expo)(worth(neg)));
    lemma_exponential_side(x.expo, worth(neg));
    if magnitude(g * t) < x.tiny {
        assert(f == t);
    } else {
        if g == 0real {
            assert(0real * t == 0real);
        }
        assert(g != 0real);
        assert(f * g == 1real - e);
        if f < 0real {
            if g > 0real {
                lemma_keeps_order(0real, t, g);
                assert(g * 0real == 0real);
                assert(worth(neg) <= 0real);
                lemma_positive(0real - f, g);
                lemma_negates(f, g);
            } else {
                lemma_keeps_order(0real, t, 0real - g);
                assert((0real - g) * 0real == 0real);
                lemma_negates(g, t);
                assert(worth(neg) >= 0real);
                lemma_positive(0real - f, 0real - g);
                lemma_negates(g, f);
                lemma_commutes(f, g);
            }
        }
    }
    assert(f >= 0real);
    lemma_keeps_order(0real, k, n);
    assert(0real * n == 0real);
    lemma_keeps_order(0real, k * n, f);
    assert(0real * f == 0real);
    let d = e + (k * n) * f;
    assert(worth(denom) == d);
    assert(worth(next) * d == n);
    if worth(next) <= 0real {
        lemma_keeps_order(worth(next), 0real, d);
        assert(0real * d == 0real);
    }
    s
}

/// A slice whose exponent is used as it is: not capped, and not so small that it is
/// not divided by, unless it is nothing.
pub open spec fn is_resolved<R>(x: Exact<R>, growth: real, dt: real) -> bool {
    &&& growth * dt == 0real || magnitude(growth * dt) >= x.tiny
    &&& 0real - growth * dt <= x.top
}

/// Of a resolved slice, decay and span are those of its exponent.
proof fn lemma_resolved_slice<R>(x: Exact<R>, growth: real, dt: real, s: Slice)
    requires
        is_exponential(x.expo),
        0real < x.tiny,
        is_slice(x, growth, dt, s),
        is_resolved(x, growth, dt),
    ensures
        s.decay == (x.expo)(0real - growth * dt),
        s.span * growth == 1real - s.decay,
        growth == 0real ==> s.span == dt,
{
    if growth * dt == 0real {
        lemma_commutes(growth, dt);
    }
    if growth == 0real {
        assert(0real * dt == 0real);
        assert(s.span * 0real == 0real);
    }
}

/// Slices compose: at a constant intensity and without field ionization, two slices
/// after one another leave the density that one slice of their whole length leaves,
/// where the exponents of all three are resolved.
pub proof fn law_slices_compose<K: Kinetics>(
    m: Model<K>,
    rates: Rates<K::Real>,
    n_e: K::Real,
    first: K::Real,
    second: K::Real,
    whole: K::Real,
    mid: K::Real,
    end: K::Real,
    direct: K::Real,
    x: Exact<K::Real>,
)
    requires
        m.is_advanced_under(rates, n_e, first, mid),
        m.is_advanced_under(rates, mid, second, end),
        m.is_advanced_under(rates, n_e, whole, direct),
        is_exact(m.kinetics, x),
        (x.worth)(rates.source) == 0real,
        (x.worth)(rates.depletion) >= 0real,
        (x.worth)(n_e) > 0real,
        (x.worth)(first) >= 0real,
        (x.worth)(second) >= 0real,
        (x.worth)(whole) == (x.worth)(first) + (x.worth)(second),
        is_resolved(x, (x.worth)(rates.growth), (x.worth)(first)),
        is_resolved(x, (x.worth)(rates.growth), (x.worth)(second)),
        is_resolved(x, (x.worth)(rates.growth), (x.worth)(whole)),
    ensures
        (x.worth)(end) == (x.worth)(direct),
{
    assert(m.is_grown(rates, n_e, first, mid) && m.is_grown(rates, n_e, whole, direct)
        && m.is_grown(rates, mid, second, end) && is_exponential(x.expo) && 0real < x.tiny) by {
        reveal(is_exact);
    }
    let worth = x.worth;
    let (g, k, n) = (worth(rates.growth), worth(rates.depletion), worth(n_e));
    let (t1, t2) = (worth(first), worth(second));
    let (n1, n2, n3) = (worth(mid), worth(end), worth(direct));
    let a = lemma_growth_is_logistic(m, rates, n_e, first, mid, x);
    let b = lemma_growth_is_logistic(m, rates, mid, second, end, x);
    let c = lemma_growth_is_logistic(m, rates, n_e, whole, direct, x);
    lemma_resolved_slice(x, g, t1, a);
    lemma_resolved_slice(x, g, t2, b);
    lemma_resolved_slice(x, g, t1 + t2, c);
    let (e1, e2, f1, f2) = (a.decay, b.decay, a.span, b.span);
    assert(c.decay == e1 * e2) by {
        lemma_distributes(t1, t2, g);
        assert(multiplies(x.expo, 0real - g * t1, 0real - g * t2));
        assert(0real - g * (t1 + t2) == (0real - g * t1) + (0real - g * t2));
    }
    let f3 = e2 * f1 + f2;
    assert(c.span == f3) by {
        if g == 0real {
            assert(g * t2 == 0real);
            assert(e2 == 1real);
            assert(1real * f1 == f1);
        } else {
            lemma_distributes(e2 * f1, f2, g);
            lemma_associates(e2, f1, g);
            lemma_distributes(1real, e1, e2);
            assert(e2 * 1real == e2);
            lemma_commutes(e1, e2);
            assert(f3 * g == 1real - e1 * e2);
            lemma_cancels(c.span, f3, g);
        }
    }
    let d1 = e1 + (k * n) * f1;
    let d2 = e2 + (k * n1) * f2;
    let d3 = e1 * e2 + (k * n) * f3;
    assert(n2 * d3 == n) by {
        // The second slice, taken times the denominator of the first.
        lemma_associates(n2, d2, d1);
        assert(n2 * (d2 * d1) == n1 * d1);
        lemma_distributes(e2, (k * n1) * f2, d1);
        lemma_distributes(e1, (k * n) * f1, e2);
        lemma_commutes(e2, e1);
        lemma_commutes(k * n1, f2);
        lemma_associates(f2, k * n1, d1);
        lemma_associates(k, n1, d1);
        lemma_commutes(f2, k * n);
        assert(((k * n1) * f2) * d1 == (k * n) * f2);
        lemma_associates(e2, k * n, f1);
        lemma_commutes(e2, k * n);
        lemma_associates(k * n, e2, f1);
        lemma_distributes(e2 * f1, f2, k * n);
        assert(d2 * d1 == d3);
    }
    lemma_cancels(n2, n3, d3);
}

/// Where nothing depletes, the density grows or decays as the exponential of its rate:
/// without light, of the loss alone.
pub proof fn law_undepleted_growth_is_exponential<K: Kinetics>(
    m: Model<K>,
    rates: Rates<K::Real>,
    n_e: K::Real,
    dt: K::Real,
    next: K::Real,
    x: Exact<K::Real>,
)
    requires
        m.is_advanced_under(rates, n_e, dt, next),
        is_exact(m.kinetics, x),
        (x.worth)(rates.source) == 0real,
        (x.worth)(rates.depletion) == 0real,
        (x.worth)(n_e) > 0real,
        (x.worth)(dt) >= 0real,
        0real - (x.worth)(rates.growth) * (x.worth)(dt) <= x.top,
    ensures
        (x.worth)(next) == (x.worth)(n_e) * (x.expo)((x.worth)(rates.growth) * (x.worth)(dt)),
{
    assert(m.is_grown(rates, n_e, dt, next) && is_exponential(x.expo)) by {
        reveal(is_exact);
    }
    let s = lemma_growth_is_logistic(m, rates, n_e, dt, next, x);
    let (g, t, n, after) = (
        (x.worth)(rates.growth),
        (x.worth)(dt),
        (x.worth)(n_e),
        (x.worth)(next),
    );
    assert(0real * n == 0real);
    assert(0real * s.span == 0real);
    assert(after * s.decay == n);
    let e = (x.expo)(g * t);
    lemma_exponential_side(x.expo, g * t);
    assert(s.decay == (x.expo)(0real - g * t));
    lemma_associates(after, s.decay, e);
    lemma_commutes(s.decay, e);
    assert(after * 1real == after);
}

/// The rates at a pressure: growth is what the cascade leaves of the loss, and
/// depletion ends the cascade where every neutral is ionized.
pub open spec fn are_balanced<R>(x: Exact<R>, rates: Rates<R>) -> bool {
    let worth = x.worth;
    &&& worth(rates.cascade) >= 0real
    &&& worth(rates.loss) >= 0real
    &&& worth(rates.neutral) > 0real
    &&& worth(rates.growth) == worth(rates.cascade) - worth(rates.loss)
    &&& worth(rates.depletion) * worth(rates.neutral) == worth(rates.cascade)
}

/// The rates that a gas has at a pressure are balanced.
pub proof fn lemma_rates_are_balanced<K: Kinetics>(
    m: Model<K>,
    intensity: K::Real,
    pressure: K::Real,
    rates: Rates<K::Real>,
    x: Exact<K::Real>,
)
    requires
        is_exact(m.kinetics, x),
        m.are_rates(intensity, pressure, rates),
        (x.worth)(rates.cascade) >= 0real,
        (x.worth)(rates.loss) >= 0real,
        (x.worth)(rates.neutral) > 0real,
    ensures
        are_balanced(x, rates),
{
    reveal(is_exact);
}

/// Full ionization is the ceiling: no slice takes the density above the neutrals that
/// ionization consumes.
pub proof fn law_density_is_bounded_by_the_neutrals<K: Kinetics>(
    m: Model<K>,
    rates: Rates<K::Real>,
    n_e: K::Real,
    dt: K::Real,
    next: K::Real,
    x: Exact<K::Real>,
)
    requires
        m.is_advanced_under(rates, n_e, dt, next),
        is_exact(m.kinetics, x),
        are_balanced(x, rates),
        (x.worth)(dt) >= 0real,
        (x.worth)(n_e) <= (x.worth)(rates.neutral),
    ensures
        (x.worth)(next) <= (x.worth)(rates.neutral),
{
    let worth = x.worth;
    let (c, g, k) = (worth(rates.cascade), worth(rates.growth), worth(rates.depletion));
    let (n, top, after, t) = (worth(n_e), worth(rates.neutral), worth(next), worth(dt));
    let source = call_ensures(K::is_zero, (&m.kinetics, rates.source), false) && m.is_fed(
        rates,
        n_e,
        dt,
        next,
    );
    if source {
        reveal(is_exact);
    } else if n <= 0real {
        reveal(is_exact);
        assert(m.is_off(next));
    } else {
        if k < 0real {
            lemma_positive(0real - k, top);
            lemma_negates(k, top);
        }
        let s = lemma_growth_is_logistic(m, rates, n_e, dt, next, x);
        let (e, f) = (s.decay, s.span);
        assert(e + f * g >= 1real) by {
            if magnitude(g * t) < x.tiny {
                reveal(is_exact);
                lemma_commutes(g, t);
                assert(e == (x.expo)(0real - g * t));
            }
        }
        let z = n * f;
        let d = e + (k * n) * f;
        lemma_keeps_order(0real, f, n);
        assert(n * 0real == 0real);
        assert(top * d == top * e + c * z) by {
            lemma_distributes(e, (k * n) * f, top);
            lemma_associates(k, n, f);
            lemma_associates(top, k, z);
            lemma_commutes(top, k);
        }
        lemma_keeps_order(n, top, e);
        lemma_keeps_order(g, c, z);
        assert(g * z == n * (f * g)) by {
            lemma_commutes(g, z);
            lemma_associates(n, f, g);
        }
        lemma_distributes(e, f * g, n);
        lemma_keeps_order(1real, e + f * g, n);
        assert(n * 1real == n);
        assert(after * d <= top * d);
        lemma_reads_order(after, top, d);
    }
}

/// No density of a pulse is above the neutrals, where its seed is not.
pub proof fn law_pulse_is_bounded_by_the_neutrals<K: Kinetics>(
    m: Model<K>,
    p: Pulse<K::Real>,
    densities: Seq<K::Real>,
    peaks: Seq<K::Real>,
    neutral: K::Real,
    x: Exact<K::Real>,
    i: int,
)
    requires
        m.is_pulse_run(p, densities, peaks),
        is_exact(m.kinetics, x),
        m.is_neutral(p.pressure, neutral),
        (x.worth)(neutral) > 0real,
        (x.worth)(p.dt) >= 0real,
        forall|slice: usize, intensity: K::Real, rates: Rates<K::Real>|
            #![trigger call_ensures(K::pulse_intensity, (&m.kinetics, p.i_peak, p.fwhm, p.half, p.dt, slice), intensity), m.are_rates(intensity, p.pressure, rates)]
            call_ensures(
                K::pulse_intensity,
                (&m.kinetics, p.i_peak, p.fwhm, p.half, p.dt, slice),
                intensity,
            ) && m.are_rates(intensity, p.pressure, rates) ==> (x.worth)(rates.cascade) >= 0real && (
            x.worth)(rates.loss) >= 0real,
        (x.worth)(densities[0]) <= (x.worth)(neutral),
        m.seed matches Some(floor) ==> (x.worth)(floor) <= (x.worth)(neutral),
        0 <= i < densities.len(),
    ensures
        (x.worth)(densities[i]) <= (x.worth)(neutral),
        (x.worth)(peaks[i]) <= (x.worth)(neutral),
    decreases i,
{
    if i > 0 {
        let k = i - 1;
        law_pulse_is_bounded_by_the_neutrals(m, p, densities, peaks, neutral, x, k);
        assert(m.is_pulse_leg(p, densities, peaks, k));
        let (intensity, free) = choose|intensity: K::Real, free: K::Real|
            {
                &&& #[trigger] call_ensures(
                    K::pulse_intensity,
                    (&m.kinetics, p.i_peak, p.fwhm, p.half, p.dt, k as usize),
                    intensity,
                )
                &&& #[trigger] m.is_advanced(densities[k], intensity, p.pressure, p.dt, free)
                &&& match m.seed {
                    Some(floor) => call_ensures(
                        K::larger,
                        (&m.kinetics, free, floor),
                        densities[i],
                    ),
                    None => densities[i] == free,
                }
            };
        let rates = choose|rates: Rates<K::Real>| #[trigger]
            m.are_rates(intensity, p.pressure, rates) && m.is_advanced_under(
                rates,
                densities[k],
                p.dt,
                free,
            );
        lemma_one_neutral(m, p.pressure, neutral, rates.neutral, x);
        lemma_rates_are_balanced(m, intensity, p.pressure, rates, x);
        law_density_is_bounded_by_the_neutrals(m, rates, densities[k], p.dt, free, x);
        reveal(is_exact);
    }
}

/// A pressure has one density of neutrals.
pub proof fn lemma_one_neutral<K: Kinetics>(
    m: Model<K>,
    pressure: K::Real,
    a: K::Real,
    b: K::Real,
    x: Exact<K::Real>,
)
    requires
        is_exact(m.kinetics, x),
        m.is_neutral(pressure, a),
        m.is_neutral(pressure, b),
    ensures
        (x.worth)(a) == (x.worth)(b),
{
    reveal(is_exact);
}

} // verus!

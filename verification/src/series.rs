//! What the sums under an ionization rate come to.
//!
//! Dawson's integral is odd, and each of its two series is a partial sum whose terms
//! follow from one another. The sum over photon orders counts each order once. The double
//! integral of a first passage, without a potential to climb against, is that of a free
//! climb. The gamma function reflects about one half.
use crate::algebra::{lemma_associates, lemma_commutes, lemma_distributes, lemma_nothing};
use crate::breakdown0d::{
    is_ati_exponent, is_ati_leg, is_ati_over, is_ati_run, is_ati_sum, is_ati_term, is_dawson,
    is_dawson_upper, is_far_next, is_far_series, is_far_sum, is_far_term, is_near_series,
    is_near_sum, is_near_term, is_passage_integral, is_passage_leg, is_passage_point,
    is_passage_result, is_passage_run, is_passage_sum, Kinetics, Passage, DAWSON_NEAR_TERMS,
};
use crate::breakdown_replay::{
    lemma_dawson_is_one, lemma_direct_is_one, reckons_alike, sums_gamma_alike, tunnels_alike,
};
use crate::special::{is_direct, is_ln_gamma, is_series, is_term, Gamma, GAMMA_TERMS};
use crate::sums::line_sum;
use vstd::prelude::*;

verus! {

/// Dawson's integral is odd: that of the opposite is the opposite.
pub proof fn law_dawson_integral_is_odd<K: Kinetics>(
    k: K,
    x: K::Real,
    y: K::Real,
    a: K::Real,
    b: K::Real,
)
    requires
        reckons_alike(k),
        tunnels_alike(k),
        call_ensures(K::negate, (&k, y), x),
        forall|v: K::Real| #[trigger] call_ensures(K::negate, (&k, y), v) ==> v == x,
        forall|c: bool| #[trigger] call_ensures(K::is_zero, (&k, x), c) ==> !c,
        forall|c: bool| #[trigger] call_ensures(K::is_zero, (&k, y), c) ==> !c,
        forall|c: bool| #[trigger] call_ensures(K::is_finite, (&k, x), c) ==> c,
        forall|c: bool| #[trigger] call_ensures(K::is_finite, (&k, y), c) ==> c,
        forall|c: bool| #[trigger] call_ensures(K::is_positive, (&k, x), c) ==> c,
        forall|c: bool| #[trigger] call_ensures(K::is_positive, (&k, y), c) ==> !c,
        is_dawson(k, x, a),
        is_dawson(k, y, b),
    ensures
        call_ensures(K::negate, (&k, a), b),
{
    let (mirrored, z) = choose|mirrored: K::Real, z: K::Real|
        {
            &&& call_ensures(K::negate, (&k, y), mirrored)
            &&& #[trigger] is_dawson_upper(k, mirrored, z)
            &&& call_ensures(K::negate, (&k, z), b)
        };
    assert(is_dawson(k, x, z));
    lemma_dawson_is_one(k, x, a, z);
}

/// Sums and the two recurrences of Dawson's series are exact.
#[verifier::opaque]
pub open spec fn sums_dawson_exactly<K: Kinetics>(k: K, size: spec_fn(K::Real) -> real) -> bool {
    &&& forall|a: K::Real, b: K::Real, c: K::Real| #[trigger]
        call_ensures(K::plus, (&k, a, b), c) ==> size(c) == size(a) + size(b)
    &&& forall|term: K::Real, x: K::Real, n: usize, next: K::Real| #[trigger]
        call_ensures(K::dawson_near, (&k, term, x, n), next) ==> size(next) * (2 * n + 1) as real
            == 0real - 2real * (size(x) * size(x)) * size(term)
    &&& forall|x: K::Real, first: K::Real| #[trigger]
        call_ensures(K::dawson_far_first, (&k, x), first) ==> size(first) * (2real * size(x)) == 1real
    &&& forall|term: K::Real, x: K::Real, n: usize, next: K::Real| #[trigger]
        call_ensures(K::dawson_far, (&k, term, x, n), next) && n > 0 ==> size(next) * (2real * (size(
            x,
        ) * size(x))) == (2 * n - 1) as real * size(term)
}

/// Term `i + 1` of the power series from term `i`: times twice the negated square of the
/// argument, over the odd number `2 i + 3`.
pub open spec fn follows_near<R>(
    size: spec_fn(R) -> real,
    x: R,
    terms: Seq<R>,
    i: int,
) -> bool {
    size(terms[i + 1]) * (2 * i + 3) as real == 0real - 2real * (size(x) * size(x)) * size(terms[i])
}

/// Term `i + 1` of the asymptotic series from term `i`: times the odd number `2 i + 1`,
/// over twice the square of the argument.
pub open spec fn follows_far<R>(
    size: spec_fn(R) -> real,
    x: R,
    terms: Seq<R>,
    i: int,
) -> bool {
    size(terms[i + 1]) * (2real * (size(x) * size(x))) == (2 * i + 1) as real * size(terms[i])
}

spec fn is_term_added<K: Kinetics>(
    k: K,
    terms: Seq<K::Real>,
    sums: Seq<K::Real>,
    l: int,
) -> bool {
    call_ensures(K::plus, (&k, sums[l], terms[l + 1]), sums[l + 1])
}

proof fn lemma_terms_add_up<K: Kinetics>(
    k: K,
    terms: Seq<K::Real>,
    sums: Seq<K::Real>,
    size: spec_fn(K::Real) -> real,
    i: int,
)
    requires
        sums_dawson_exactly(k, size),
        0 < terms.len() == sums.len(),
        sums[0] == terms[0],
        forall|l: int| 0 <= l < terms.len() - 1 ==> #[trigger] is_term_added(k, terms, sums, l),
        0 <= i < terms.len(),
    ensures
        size(sums[i]) == line_sum(|l: int| size(terms[l]), (i + 1) as nat),
    decreases i,
{
    let f = |l: int| size(terms[l]);
    if i > 0 {
        lemma_terms_add_up(k, terms, sums, size, i - 1);
        assert(is_term_added(k, terms, sums, i - 1));
        reveal(sums_dawson_exactly);
        assert(line_sum(f, (i + 1) as nat) == line_sum(f, i as nat) + f(i));
    } else {
        assert(line_sum(f, 1) == line_sum(f, 0) + f(0));
    }
}

/// Near the origin Dawson's integral is a partial sum of its power series: the first term
/// is the argument, each next one is the one before times twice the negated square of the
/// argument over the next odd number, and the sum ends with a term that no longer counts
/// or at the limit.
pub proof fn law_near_value_is_a_partial_sum<K: Kinetics>(
    k: K,
    x: K::Real,
    y: K::Real,
    size: spec_fn(K::Real) -> real,
) -> (terms: Seq<K::Real>)
    requires
        sums_dawson_exactly(k, size),
        is_near_sum(k, x, y),
    ensures
        terms.len() > 0,
        size(terms[0]) == size(x),
        forall|i: int| 0 <= i < terms.len() - 1 ==> #[trigger] follows_near(size, x, terms, i),
        size(y) == line_sum(|i: int| size(terms[i]), terms.len()),
        terms.len() == DAWSON_NEAR_TERMS || call_ensures(
            K::is_spent_term,
            (&k, terms.last(), y),
            true,
        ),
{
    let (terms, sums) = choose|terms: Seq<K::Real>, sums: Seq<K::Real>|
        {
            &&& #[trigger] is_near_series(k, x, terms, sums)
            &&& sums.last() == y
            &&& terms.len() == DAWSON_NEAR_TERMS || (terms.len() > 1 && call_ensures(
                K::is_spent_term,
                (&k, terms.last(), y),
                true,
            ))
        };
    assert forall|l: int| 0 <= l < terms.len() - 1 implies #[trigger] is_term_added(
        k,
        terms,
        sums,
        l,
    ) by {
        assert(is_near_term(k, x, terms, sums, l));
    }
    lemma_terms_add_up(k, terms, sums, size, terms.len() - 1);
    assert forall|i: int| 0 <= i < terms.len() - 1 implies #[trigger] follows_near(
        size,
        x,
        terms,
        i,
    ) by {
        assert(is_near_term(k, x, terms, sums, i));
        reveal(sums_dawson_exactly);
        assert(2 * ((i + 1) as usize) + 1 == 2 * i + 3);
    }
    terms
}

/// Far from the origin Dawson's integral is a partial sum of its asymptotic series: the
/// first term is half the inverse of the argument, and each next one is the one before
/// times the next odd number over twice the square of the argument.
pub proof fn law_far_value_is_a_partial_sum<K: Kinetics>(
    k: K,
    x: K::Real,
    y: K::Real,
    size: spec_fn(K::Real) -> real,
) -> (terms: Seq<K::Real>)
    requires
        sums_dawson_exactly(k, size),
        is_far_sum(k, x, y),
    ensures
        terms.len() > 0,
        size(terms[0]) * (2real * size(x)) == 1real,
        forall|i: int| 0 <= i < terms.len() - 1 ==> #[trigger] follows_far(size, x, terms, i),
        size(y) == line_sum(|i: int| size(terms[i]), terms.len()),
{
    let (terms, sums) = choose|terms: Seq<K::Real>, sums: Seq<K::Real>| #[trigger]
        is_far_series(k, x, terms, sums) && sums.last() == y;
    assert forall|l: int| 0 <= l < terms.len() - 1 implies #[trigger] is_term_added(
        k,
        terms,
        sums,
        l,
    ) by {
        assert(is_far_term(k, x, terms, sums, l));
    }
    lemma_terms_add_up(k, terms, sums, size, terms.len() - 1);
    assert forall|i: int| 0 <= i < terms.len() - 1 implies #[trigger] follows_far(
        size,
        x,
        terms,
        i,
    ) by {
        assert(is_far_term(k, x, terms, sums, i));
        assert(is_far_next(k, x, terms[i], (i + 1) as usize, terms[i + 1], false));
        reveal(sums_dawson_exactly);
        assert(2 * ((i + 1) as usize) - 1 == 2 * i + 1);
    }
    reveal(sums_dawson_exactly);
    terms
}

/// The terms over photon orders are exact: order `j` has the excess `excess(j)`, decays
/// with it and weighs Dawson's integral of its argument.
#[verifier::opaque]
pub open spec fn sums_orders_exactly<K: Kinetics>(
    k: K,
    gamma: K::Real,
    nu: K::Real,
    size: spec_fn(K::Real) -> real,
    excess: spec_fn(int) -> real,
    exponential: spec_fn(real) -> real,
    argument: spec_fn(real) -> real,
    integral: spec_fn(real) -> real,
) -> bool {
    &&& forall|zero: K::Real| #[trigger] call_ensures(K::zero, (&k,), zero) ==> size(zero) == 0real
    &&& forall|a: K::Real, b: K::Real, c: K::Real| #[trigger]
        call_ensures(K::plus, (&k, a, b), c) ==> size(c) == size(a) + size(b)
    &&& forall|a: K::Real, b: K::Real, c: K::Real| #[trigger]
        call_ensures(K::times, (&k, a, b), c) ==> size(c) == size(a) * size(b)
    &&& forall|j: usize, e: K::Real| #[trigger]
        call_ensures(K::ati_excess, (&k, nu, j), e) ==> size(e) == excess(j as int)
    &&& forall|decay: K::Real, e: K::Real, x: K::Real| #[trigger]
        call_ensures(K::ati_exponent, (&k, decay, e), x) ==> size(x) == 0real - size(decay) * size(e)
    &&& forall|x: K::Real, g: K::Real| #[trigger]
        call_ensures(K::exponential, (&k, x), g) ==> size(g) == exponential(size(x))
    &&& forall|e: K::Real, x: K::Real| #[trigger]
        call_ensures(K::ati_argument, (&k, gamma, e), x) ==> size(x) == argument(size(e))
    &&& forall|x: K::Real, y: K::Real| #[trigger]
        is_dawson(k, x, y) ==> size(y) == integral(size(x))
}

proof fn lemma_orders_add_up<K: Kinetics>(
    k: K,
    gamma: K::Real,
    nu: K::Real,
    decay: K::Real,
    run: Seq<K::Real>,
    size: spec_fn(K::Real) -> real,
    excess: spec_fn(int) -> real,
    exponential: spec_fn(real) -> real,
    argument: spec_fn(real) -> real,
    integral: spec_fn(real) -> real,
    j: int,
)
    requires
        sums_orders_exactly(k, gamma, nu, size, excess, exponential, argument, integral),
        is_ati_run(k, gamma, nu, decay, run),
        run.len() <= usize::MAX,
        0 <= j < run.len(),
    ensures
        size(run[j]) == line_sum(
            |l: int|
                exponential(0real - size(decay) * excess(l)) * integral(argument(excess(l))),
            j as nat,
        ),
    decreases j,
{
    let f = |l: int| exponential(0real - size(decay) * excess(l)) * integral(argument(excess(l)));
    if j > 0 {
        lemma_orders_add_up(
            k,
            gamma,
            nu,
            decay,
            run,
            size,
            excess,
            exponential,
            argument,
            integral,
            j - 1,
        );
        assert(is_ati_leg(k, gamma, nu, decay, run, j - 1));
        let i = j - 1;
        assert(is_ati_term(k, gamma, nu, decay, i, run[i], run[i + 1]));
        assert(size(run[j]) == size(run[i]) + f(i)) by {
            reveal(sums_orders_exactly);
        }
        assert(line_sum(f, j as nat) == line_sum(f, i as nat) + f(i));
    } else {
        reveal(sums_orders_exactly);
    }
}

/// The sum over photon orders counts each order from the threshold on once, up to the
/// number asked for or to the first that underflows.
pub proof fn law_each_photon_order_counts_once<K: Kinetics>(
    k: K,
    gamma: K::Real,
    nu: K::Real,
    terms: usize,
    a0: K::Real,
    size: spec_fn(K::Real) -> real,
    excess: spec_fn(int) -> real,
    exponential: spec_fn(real) -> real,
    argument: spec_fn(real) -> real,
    integral: spec_fn(real) -> real,
) -> (r: (K::Real, K::Real, nat))
    requires
        sums_orders_exactly(k, gamma, nu, size, excess, exponential, argument, integral),
        terms < usize::MAX,
        is_ati_sum(k, gamma, nu, terms, a0),
    ensures
        call_ensures(K::ati_decay, (&k, gamma), r.0),
        call_ensures(K::ati_scale, (&k, gamma, r.1), a0),
        r.2 <= terms,
        size(r.1) == line_sum(
            |l: int| exponential(0real - size(r.0) * excess(l)) * integral(argument(excess(l))),
            r.2,
        ),
        r.2 < terms ==> exists|e: K::Real, x: K::Real| #[trigger]
            is_ati_exponent(k, nu, r.0, r.2 as int, e, x, true),
{
    let (decay, run) = choose|decay: K::Real, run: Seq<K::Real>|
        {
            &&& call_ensures(K::ati_decay, (&k, gamma), decay)
            &&& #[trigger] is_ati_run(k, gamma, nu, decay, run)
            &&& is_ati_over(k, nu, decay, terms, run)
            &&& call_ensures(K::ati_scale, (&k, gamma, run.last()), a0)
        };
    let done = run.len() - 1;
    lemma_orders_add_up(
        k,
        gamma,
        nu,
        decay,
        run,
        size,
        excess,
        exponential,
        argument,
        integral,
        done,
    );
    (decay, run.last(), done as nat)
}

/// A passage is added up exactly, and nothing is climbed against: the growth between any
/// two potentials is one.
#[verifier::opaque]
pub open spec fn climbs_freely<K: Kinetics>(k: K, size: spec_fn(K::Real) -> real) -> bool {
    &&& forall|zero: K::Real| #[trigger] call_ensures(K::zero, (&k,), zero) ==> size(zero) == 0real
    &&& forall|one: K::Real| #[trigger] call_ensures(K::one, (&k,), one) ==> size(one) == 1real
    &&& forall|half: K::Real| #[trigger]
        call_ensures(K::half, (&k,), half) ==> 2real * size(half) == 1real
    &&& forall|now: K::Real, before: K::Real, r: K::Real| #[trigger]
        call_ensures(K::passage_growth, (&k, now, before), r) ==> size(r) == 1real
    &&& forall|r: K::Real, s: K::Real, h: K::Real, next: K::Real| #[trigger]
        call_ensures(K::passage_inner, (&k, r, s, h), next) && size(r) == 1real ==> size(next)
            == size(s) + size(h)
    &&& forall|total: K::Real, s: K::Real, w: K::Real, h: K::Real, next: K::Real| #[trigger]
        call_ensures(K::passage_outer, (&k, total, s, w, h), next) ==> size(next) == size(total)
            + size(w) * (size(s) * size(h))
    &&& forall|x: K::Real, b: bool| #[trigger] call_ensures(K::is_finite, (&k, x), b) ==> b
}

proof fn lemma_free_climb<K: Kinetics>(
    k: K,
    eps_inf: K::Real,
    photon: K::Real,
    h: K::Real,
    n: int,
    run: Seq<Passage<K::Real>>,
    size: spec_fn(K::Real) -> real,
    j: int,
)
    requires
        climbs_freely(k, size),
        is_passage_run(k, eps_inf, photon, h, n, run),
        run.len() <= n + 1,
        0 <= j < run.len(),
    ensures
        size(run[j].s) == (j as real) * size(h),
        j < n ==> 2real * size(run[j].total) == (j as real) * ((j + 1) as real) * (size(h) * size(h)),
        j == n && n > 0 ==> 2real * size(run[j].total) == (j as real) * (j as real) * (size(h) * size(
            h,
        )),
    decreases j,
{
    let d = size(h);
    if j > 0 {
        let i = j - 1;
        lemma_free_climb(k, eps_inf, photon, h, n, run, size, i);
        assert(is_passage_leg(k, eps_inf, photon, h, n, run, i));
        let (a, b) = (run[i], run[i + 1]);
        assert(is_passage_point(k, eps_inf, photon, h, n, j, a, b));
        let (r, w) = choose|r: K::Real, w: K::Real| #[trigger]
            is_passage_sum(k, h, n, j, a, b, r, w);
        assert(size(b.s) == size(a.s) + d && size(b.total) == size(a.total) + size(w) * (size(b.s)
            * d) && (j == n ==> 2real * size(w) == 1real) && (j != n ==> size(w) == 1real)) by {
            reveal(climbs_freely);
        }
        let (p, q) = (i as real, j as real);
        assert(q == p + 1real && (j + 1) as real == q + 1real);
        lemma_distributes(p, 1real, d);
        assert(size(b.s) == q * d);
        let e = d * d;
        lemma_associates(q, d, d);
        assert(size(b.s) * d == q * e);
        let v = q * e;
        // The total before, and after a whole or a half cell.
        assert(2real * size(a.total) == p * q * e);
        if j == n {
            lemma_associates(2real, size(w), v);
            assert(2real * (size(w) * v) == v);
        } else {
            assert(size(w) * v == v);
        }
        // p q e + q e and p q e + 2 q e, as products.
        lemma_associates(p, q, e);
        lemma_associates(q, q, e);
        lemma_distributes(p, 1real, v);
        assert(q * v == p * v + v);
        lemma_distributes(q, 1real, q);
        lemma_distributes(q * q, q, e);
        assert((q + 1real) * q == q * q + q);
        lemma_commutes(q, q + 1real);
        assert(q * (q + 1real) * e == q * q * e + v);
    } else {
        lemma_nothing(d);
        lemma_nothing(1real);
        lemma_nothing(d * d);
        reveal(climbs_freely);
        assert((0 as real) == 0real);
        assert((0 as real) * (1 as real) == 0real);
    }
}

/// A passage that climbs against nothing takes half the square of the energy to climb:
/// each cell counts in full and the last by half, whatever their number.
pub proof fn law_free_passage_is_half_the_square<K: Kinetics>(
    k: K,
    eps_inf: K::Real,
    u_ion: K::Real,
    photon: K::Real,
    n: int,
    total: K::Real,
    size: spec_fn(K::Real) -> real,
)
    requires
        climbs_freely(k, size),
        0 < n <= usize::MAX,
        forall|h: K::Real| #[trigger]
            call_ensures(K::passage_step, (&k, u_ion, n as usize), h) ==> (n as real) * size(h) == size(
                u_ion,
            ),
        is_passage_integral(k, eps_inf, u_ion, photon, n, total),
    ensures
        2real * size(total) == size(u_ion) * size(u_ion),
{
    let (h, run) = choose|h: K::Real, run: Seq<Passage<K::Real>>|
        {
            &&& call_ensures(K::passage_step, (&k, u_ion, n as usize), h)
            &&& #[trigger] is_passage_run(k, eps_inf, photon, h, n, run)
            &&& is_passage_result(k, n, run, total)
        };
    assert(run.len() == n + 1 && total == run.last().total) by {
        reveal(climbs_freely);
    }
    lemma_free_climb(k, eps_inf, photon, h, n, run, size, n);
    let (m, d) = (n as real, size(h));
    // (m d) (m d) is m m (d d).
    lemma_associates(m, d, m * d);
    lemma_commutes(m, d);
    lemma_associates(d, d, m);
    lemma_associates(d, m, d);
    lemma_commutes(d * d, m);
    lemma_associates(m, m, d * d);
    assert(d * (m * d) == m * (d * d));
}

/// The inner integral of a passage is exact: a potential weighs `weight`, whose inverse is
/// `share`, the growth between two potentials is the ratio of their weights, and a cell
/// adds the mean of its ends.
#[verifier::opaque]
pub open spec fn weighs_potentials<K: Kinetics>(
    k: K,
    size: spec_fn(K::Real) -> real,
    weight: spec_fn(K::Real) -> real,
    share: spec_fn(K::Real) -> real,
) -> bool {
    &&& forall|zero: K::Real| #[trigger] call_ensures(K::zero, (&k,), zero) ==> size(zero) == 0real
    &&& forall|phi: K::Real| #[trigger] weight(phi) * share(phi) == 1real
    &&& forall|now: K::Real, before: K::Real, r: K::Real| #[trigger]
        call_ensures(K::passage_growth, (&k, now, before), r) ==> size(r) == weight(now) * share(
            before,
        )
    &&& forall|r: K::Real, s: K::Real, h: K::Real, next: K::Real| #[trigger]
        call_ensures(K::passage_inner, (&k, r, s, h), next) ==> 2real * size(next) == 2real * (size(r)
            * size(s)) + size(h) * size(r) + size(h)
}

/// The inner integral of a passage at each point is the weight of the potential there,
/// times the sum over the cells below it of the mean share of their ends: what is climbed
/// against counts by how much higher it is than what was climbed before.
pub proof fn law_inner_integral_is_a_trapezoid_sum<K: Kinetics>(
    k: K,
    eps_inf: K::Real,
    photon: K::Real,
    h: K::Real,
    n: int,
    run: Seq<Passage<K::Real>>,
    size: spec_fn(K::Real) -> real,
    weight: spec_fn(K::Real) -> real,
    share: spec_fn(K::Real) -> real,
    j: int,
)
    requires
        weighs_potentials(k, size, weight, share),
        is_passage_run(k, eps_inf, photon, h, n, run),
        0 <= j < run.len(),
    ensures
        2real * (size(run[j].s) * share(run[j].phi)) == size(h) * line_sum(
            |l: int| share(run[l].phi) + share(run[l + 1].phi),
            j as nat,
        ),
    decreases j,
{
    let f = |l: int| share(run[l].phi) + share(run[l + 1].phi);
    let d = size(h);
    if j > 0 {
        let i = j - 1;
        law_inner_integral_is_a_trapezoid_sum(
            k,
            eps_inf,
            photon,
            h,
            n,
            run,
            size,
            weight,
            share,
            i,
        );
        assert(is_passage_leg(k, eps_inf, photon, h, n, run, i));
        let (a, b) = (run[i], run[i + 1]);
        assert(is_passage_point(k, eps_inf, photon, h, n, j, a, b));
        let (r, w) = choose|r: K::Real, w: K::Real| #[trigger]
            is_passage_sum(k, h, n, j, a, b, r, w);
        let (x, y, g, s) = (share(a.phi), share(b.phi), size(r), size(a.s));
        assert(g == weight(b.phi) * x && weight(b.phi) * y == 1real && 2real * size(b.s) == 2real * (g
            * s) + d * g + d) by {
            reveal(weighs_potentials);
        }
        lemma_growth_is_shared(weight(b.phi), x, y, g, s, d, size(b.s));
        assert(line_sum(f, j as nat) == line_sum(f, i as nat) + f(i));
        lemma_distributes(line_sum(f, i as nat), f(i), d);
    } else {
        reveal(weighs_potentials);
        lemma_nothing(share(run[0].phi));
        lemma_nothing(d);
    }
}

/// One cell of an inner integral, shared by the weight at its end.
proof fn lemma_growth_is_shared(w: real, x: real, y: real, g: real, s: real, d: real, t: real)
    requires
        g == w * x,
        w * y == 1real,
        2real * t == 2real * (g * s) + d * g + d,
    ensures
        2real * (t * y) == 2real * (s * x) + d * (x + y),
{
    // The growth, shared at the end, is the share at the start.
    lemma_commutes(w, x);
    lemma_associates(x, w, y);
    assert(g * y == x);
    lemma_commutes(g, s);
    lemma_associates(s, g, y);
    assert((g * s) * y == s * x);
    lemma_associates(d, g, y);
    assert((d * g) * y == d * x);
    lemma_associates(2real, t, y);
    lemma_distributes(2real * (g * s) + d * g, d, y);
    lemma_distributes(2real * (g * s), d * g, y);
    lemma_associates(2real, g * s, y);
    lemma_distributes(x, y, d);
}

/// The gamma function reflects: the logarithms at an argument below one half and at its
/// mirror image add up to that of the product of the two.
pub proof fn law_gamma_reflects<G: Gamma>(
    g: G,
    x: G::Real,
    y: G::Real,
    a: G::Real,
    b: G::Real,
    size: spec_fn(G::Real) -> real,
) -> (product: G::Real)
    requires
        sums_gamma_alike(g),
        call_ensures(G::mirror, (&g, x), y),
        call_ensures(G::is_reflected, (&g, x), true),
        call_ensures(G::is_reflected, (&g, y), false),
        forall|u: G::Real, v: G::Real, w: G::Real| #[trigger]
            call_ensures(G::minus, (&g, u, v), w) ==> size(w) == size(u) - size(v),
        is_ln_gamma(g, x, a),
        is_ln_gamma(g, y, b),
    ensures
        call_ensures(G::log_product, (&g, x), product),
        size(a) + size(b) == size(product),
{
    reveal(sums_gamma_alike);
    let (other, far, product) = choose|other: G::Real, far: G::Real, product: G::Real|
        {
            &&& #[trigger] call_ensures(G::mirror, (&g, x), other)
            &&& #[trigger] is_direct(g, other, far)
            &&& #[trigger] call_ensures(G::log_product, (&g, x), product)
            &&& call_ensures(G::minus, (&g, product, far), a)
        };
    lemma_direct_is_one(g, y, b, far);
    product
}

proof fn lemma_gamma_terms_add_up<G: Gamma>(
    g: G,
    x: G::Real,
    run: Seq<G::Real>,
    size: spec_fn(G::Real) -> real,
    first: real,
    term: spec_fn(int) -> real,
    i: int,
)
    requires
        is_series(g, x, run),
        forall|u: G::Real| #[trigger] call_ensures(G::first_term, (&g,), u) ==> size(u) == first,
        forall|u: G::Real, n: usize, v: G::Real| #[trigger]
            call_ensures(G::add_term, (&g, u, x, n), v) ==> size(v) == size(u) + term(n as int),
        0 <= i < run.len(),
    ensures
        size(run[i]) == first + line_sum(|l: int| term(l + 1), i as nat),
    decreases i,
{
    let f = |l: int| term(l + 1);
    if i > 0 {
        lemma_gamma_terms_add_up(g, x, run, size, first, term, i - 1);
        assert(is_term(g, x, run, i - 1));
        assert(line_sum(f, i as nat) == line_sum(f, (i - 1) as nat) + f(i - 1));
    }
}

/// The series of the gamma function has every one of its terms, from the first on, once.
pub proof fn law_gamma_series_has_every_term<G: Gamma>(
    g: G,
    x: G::Real,
    y: G::Real,
    size: spec_fn(G::Real) -> real,
    first: real,
    term: spec_fn(int) -> real,
) -> (sum: G::Real)
    requires
        forall|u: G::Real| #[trigger] call_ensures(G::first_term, (&g,), u) ==> size(u) == first,
        forall|u: G::Real, n: usize, v: G::Real| #[trigger]
            call_ensures(G::add_term, (&g, u, x, n), v) ==> size(v) == size(u) + term(n as int),
        is_direct(g, x, y),
    ensures
        call_ensures(G::from_series, (&g, x, sum), y),
        size(sum) == first + line_sum(|l: int| term(l + 1), 8),
{
    let run = choose|run: Seq<G::Real>| #[trigger]
        is_series(g, x, run) && run.len() == GAMMA_TERMS + 1 && call_ensures(
            G::from_series,
            (&g, x, run.last()),
            y,
        );
    lemma_gamma_terms_add_up(g, x, run, size, first, term, 8);
    run.last()
}

} // verus!

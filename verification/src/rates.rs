//! What the rates of a breakdown model balance.
//!
//! Electrons are gained by the cascade and lost to attachment and to escape from the
//! focus, and where the neutrals are spent only the loss is left. Field ionization is per
//! neutral. A cascade is fed by what the heating leaves over, and there is none where the
//! electrons do not reach the ionization energy.
use crate::algebra::{
    lemma_associates, lemma_cancels, lemma_commutes, lemma_nothing, lemma_reads_order,
};
use crate::breakdown0d::{
    are_coulomb_gammas, is_keldysh_rate, is_ppt_rate, CascadeModel, Kinetics, Model, Rates,
};
use crate::breakdown_replay::{is_repeatable, lemma_keldysh_is_one, lemma_ppt_is_one};
use crate::special::is_ln_gamma;
use vstd::prelude::*;

verus! {

/// The rates are added and divided exactly.
#[verifier::opaque]
pub open spec fn balances_exactly<K: Kinetics>(k: K, worth: spec_fn(K::Real) -> real) -> bool {
    &&& forall|zero: K::Real| #[trigger] call_ensures(K::zero, (&k,), zero) ==> worth(zero) == 0real
    &&& forall|a: K::Real, b: K::Real, c: K::Real| #[trigger]
        call_ensures(K::plus, (&k, a, b), c) ==> worth(c) == worth(a) + worth(b)
    &&& forall|a: K::Real, b: K::Real, c: K::Real| #[trigger]
        call_ensures(K::minus, (&k, a, b), c) ==> worth(c) == worth(a) - worth(b)
    &&& forall|a: K::Real, b: K::Real, c: K::Real| #[trigger]
        call_ensures(K::times, (&k, a, b), c) ==> worth(c) == worth(a) * worth(b)
    &&& forall|a: K::Real, b: K::Real, c: K::Real| #[trigger]
        call_ensures(K::ratio, (&k, a, b), c) && worth(b) != 0real ==> worth(c) * worth(b) == worth(a)
    &&& forall|a: K::Real, b: K::Real, c: K::Real| #[trigger]
        call_ensures(K::larger, (&k, a, b), c) ==> worth(c) == if worth(a) > worth(b) {
            worth(a)
        } else {
            worth(b)
        }
    &&& forall|a: K::Real, g: bool| #[trigger]
        call_ensures(K::is_positive, (&k, a), g) ==> g == (worth(a) > 0real)
    &&& forall|a: K::Real, b: K::Real, g: bool| #[trigger]
        call_ensures(K::is_at_most, (&k, a, b), g) ==> g == (worth(a) <= worth(b))
}

/// Electrons are lost to attachment to the neutrals at the pressure and to escape by
/// diffusion and at their mean speed, and nothing else.
pub proof fn law_loss_is_attachment_and_escape<K: Kinetics>(
    m: Model<K>,
    pressure: K::Real,
    nu: K::Real,
    worth: spec_fn(K::Real) -> real,
    attachment: spec_fn(real) -> real,
    diffusion: real,
    speed: real,
    escape: spec_fn(real, real) -> real,
)
    requires
        balances_exactly(m.kinetics, worth),
        m.is_loss(pressure, nu),
        forall|n: K::Real, a: K::Real| #[trigger]
            call_ensures(K::attachment, (&m.kinetics, m.gas, n), a) ==> worth(a) == attachment(
                worth(n),
            ),
        forall|d: K::Real| #[trigger]
            call_ensures(K::diffusion, (&m.kinetics, m.gas, pressure), d) ==> worth(d) == diffusion,
        forall|v: K::Real| #[trigger]
            call_ensures(K::mean_speed, (&m.kinetics, m.gas), v) ==> worth(v) == speed,
        forall|d: K::Real, v: K::Real, e: K::Real| #[trigger]
            call_ensures(K::escape, (&m.kinetics, m.gas, m.focus, d, v), e) ==> worth(e) == escape(
                worth(d),
                worth(v),
            ),
    ensures
        worth(nu) == attachment(worth(m.n_over_p) * worth(pressure)) + escape(diffusion, speed),
{
    reveal(balances_exactly);
}

/// What grows is the cascade less the loss, and where the electrons are as many as the
/// neutrals were, the depletion takes the cascade away and leaves the loss.
pub proof fn law_spent_gas_only_loses<K: Kinetics>(
    m: Model<K>,
    intensity: K::Real,
    pressure: K::Real,
    rates: Rates<K::Real>,
    worth: spec_fn(K::Real) -> real,
)
    requires
        balances_exactly(m.kinetics, worth),
        m.are_rates(intensity, pressure, rates),
        worth(rates.neutral) > 0real,
    ensures
        worth(rates.growth) == worth(rates.cascade) - worth(rates.loss),
        worth(rates.neutral) == worth(m.n_over_p) * worth(pressure),
        worth(rates.growth) - worth(rates.depletion) * worth(rates.neutral) == 0real - worth(
            rates.loss,
        ),
{
    reveal(balances_exactly);
}

proof fn lemma_source_has_a_rate<K: Kinetics>(
    m: Model<K>,
    intensity: K::Real,
    pressure: K::Real,
    s: K::Real,
    n: K::Real,
    worth: spec_fn(K::Real) -> real,
) -> (w: K::Real)
    requires
        balances_exactly(m.kinetics, worth),
        m.is_mpi(intensity, pressure, s),
        m.is_neutral(pressure, n),
    ensures
        worth(s) == worth(n) * worth(w),
        ({
            let k = m.kinetics;
            let (charged, prefixed, fixed) = (
                worth(m.charge) > 0real,
                worth(m.prefactor) > 0real,
                !call_ensures(K::is_zero, (&k, m.mpi_rate), true),
            );
            &&& charged ==> is_ppt_rate(k, intensity, m.omega, m.gas.u_ion, m.charge, w)
            &&& !charged && prefixed ==> is_keldysh_rate(
                k,
                intensity,
                m.omega,
                m.gas.u_ion,
                m.prefactor,
                w,
            )
            &&& !charged && !prefixed && fixed ==> call_ensures(
                K::reference_law,
                (&k, m.mpi_rate, intensity, m.mpi_intensity, m.photons),
                w,
            )
            &&& !charged && !prefixed && !call_ensures(K::is_zero, (&k, m.mpi_rate), false)
                ==> worth(s) == 0real
        }),
{
    reveal(balances_exactly);
    let k = m.kinetics;
    let (charged, prefixed) = (worth(m.charge) > 0real, worth(m.prefactor) > 0real);
    if charged {
        let (v, w) = choose|n: K::Real, w: K::Real|
            {
                &&& #[trigger] m.is_neutral(pressure, n)
                &&& #[trigger] is_ppt_rate(k, intensity, m.omega, m.gas.u_ion, m.charge, w)
                &&& call_ensures(K::times, (&k, n, w), s)
            };
        w
    } else if prefixed {
        let (v, w) = choose|n: K::Real, w: K::Real|
            {
                &&& #[trigger] m.is_neutral(pressure, n)
                &&& #[trigger] is_keldysh_rate(k, intensity, m.omega, m.gas.u_ion, m.prefactor, w)
                &&& call_ensures(K::times, (&k, n, w), s)
            };
        w
    } else if m.is_reference_source(intensity, pressure, s) && call_ensures(
        K::is_zero,
        (&k, m.mpi_rate),
        false,
    ) {
        let (v, w) = choose|n: K::Real, w: K::Real|
            {
                &&& #[trigger] m.is_neutral(pressure, n)
                &&& #[trigger] call_ensures(
                    K::reference_law,
                    (&k, m.mpi_rate, intensity, m.mpi_intensity, m.photons),
                    w,
                )
                &&& call_ensures(K::times, (&k, n, w), s)
            };
        w
    } else {
        lemma_nothing(worth(n));
        s
    }
}

/// Field ionization is per neutral: at one intensity the sources at two pressures are as
/// the neutral densities there.
pub proof fn law_source_is_per_neutral<K: Kinetics>(
    m: Model<K>,
    intensity: K::Real,
    p: K::Real,
    q: K::Real,
    a: K::Real,
    b: K::Real,
    n: K::Real,
    l: K::Real,
    worth: spec_fn(K::Real) -> real,
)
    requires
        balances_exactly(m.kinetics, worth),
        is_repeatable(m.kinetics),
        forall|v: K::Real, w: K::Real| #[trigger]
            call_ensures(
                K::reference_law,
                (&m.kinetics, m.mpi_rate, intensity, m.mpi_intensity, m.photons),
                v,
            ) && #[trigger] call_ensures(
                K::reference_law,
                (&m.kinetics, m.mpi_rate, intensity, m.mpi_intensity, m.photons),
                w,
            ) ==> v == w,
        !(call_ensures(K::is_zero, (&m.kinetics, m.mpi_rate), true) && call_ensures(
            K::is_zero,
            (&m.kinetics, m.mpi_rate),
            false,
        )),
        m.is_mpi(intensity, p, a),
        m.is_mpi(intensity, q, b),
        m.is_neutral(p, n),
        m.is_neutral(q, l),
    ensures
        worth(a) * worth(l) == worth(b) * worth(n),
{
    let k = m.kinetics;
    let v = lemma_source_has_a_rate(m, intensity, p, a, n, worth);
    let w = lemma_source_has_a_rate(m, intensity, q, b, l, worth);
    let (charged, prefixed) = (worth(m.charge) > 0real, worth(m.prefactor) > 0real);
    if charged {
        lemma_ppt_is_one(k, intensity, m.omega, m.gas.u_ion, m.charge, v, w);
    } else if prefixed {
        lemma_keldysh_is_one(k, intensity, m.omega, m.gas.u_ion, m.prefactor, v, w);
    } else if !call_ensures(K::is_zero, (&k, m.mpi_rate), false) {
        lemma_nothing(worth(l));
        lemma_nothing(worth(n));
    }
    let (x, y, r) = (worth(n), worth(l), worth(v));
    lemma_commutes(x, r);
    lemma_commutes(y, r);
    lemma_associates(r, x, y);
    lemma_associates(r, y, x);
    lemma_commutes(x, y);
}

/// Without light there is no field ionization, by either law.
pub proof fn law_no_light_no_field_ionization<K: Kinetics>(
    k: K,
    intensity: K::Real,
    omega: K::Real,
    u_ion: K::Real,
    strength: K::Real,
    rate: K::Real,
    worth: spec_fn(K::Real) -> real,
)
    requires
        balances_exactly(k, worth),
        is_ppt_rate(k, intensity, omega, u_ion, strength, rate) || is_keldysh_rate(
            k,
            intensity,
            omega,
            u_ion,
            strength,
            rate,
        ),
        worth(intensity) <= 0real,
    ensures
        worth(rate) == 0real,
{
    reveal(balances_exactly);
}

/// The two gamma functions of a Coulomb tail are at an effective number and at the next:
/// they differ by that number.
pub proof fn law_coulomb_gammas_are_at_successive_numbers<K: Kinetics>(
    k: K,
    u_ion: K::Real,
    z_eff: K::Real,
    ln_gammas: (K::Real, K::Real),
    worth: spec_fn(K::Real) -> real,
    ln_gamma: spec_fn(real) -> real,
    ln: spec_fn(real) -> real,
) -> (n: K::Real)
    requires
        balances_exactly(k, worth),
        are_coulomb_gammas(k, u_ion, z_eff, ln_gammas),
        forall|one: K::Real| #[trigger] call_ensures(K::one, (&k,), one) ==> worth(one) == 1real,
        forall|g: K::Series, x: K::Real, y: K::Real| #[trigger]
            is_ln_gamma(g, x, y) ==> worth(y) == ln_gamma(worth(x)),
        forall|x: real| #[trigger] ln_gamma(x + 1real) == ln_gamma(x) + ln(x),
    ensures
        call_ensures(K::effective_number, (&k, u_ion, z_eff), n),
        worth(ln_gammas.0) == ln_gamma(worth(n)),
        worth(ln_gammas.1) - worth(ln_gammas.0) == ln(worth(n)),
{
    reveal(balances_exactly);
    let (series, n, one, above) = choose|
        series: K::Series,
        n: K::Real,
        one: K::Real,
        above: K::Real,
    |
        {
            &&& #[trigger] call_ensures(K::series, (&k,), series)
            &&& #[trigger] call_ensures(K::effective_number, (&k, u_ion, z_eff), n)
            &&& #[trigger] call_ensures(K::one, (&k,), one)
            &&& #[trigger] call_ensures(K::plus, (&k, n, one), above)
            &&& is_ln_gamma(series, n, ln_gammas.0)
            &&& is_ln_gamma(series, above, ln_gammas.1)
        };
    assert(ln_gamma(worth(n) + 1real) == ln_gamma(worth(n)) + ln(worth(n)));
    n
}

/// Fed electrons are those there were, grown, and those that the source gave, grown from
/// when they came, and never more than the neutrals: over a slice of a steady rate the
/// growth is the exponential of the rate over the slice, and the source counts for the
/// growth integrated over it.
pub proof fn law_fed_electrons_grow_with_the_rest<K: Kinetics>(
    m: Model<K>,
    rates: Rates<K::Real>,
    n_e: K::Real,
    dt: K::Real,
    next: K::Real,
    worth: spec_fn(K::Real) -> real,
    exponential: spec_fn(real) -> real,
)
    requires
        balances_exactly(m.kinetics, worth),
        m.is_fed(rates, n_e, dt, next),
        worth(rates.neutral) > 0real,
        forall|a: K::Real, b: K::Real| #[trigger]
            call_ensures(K::clamped, (&m.kinetics, a), b) ==> worth(b) == worth(a),
        forall|a: K::Real, b: K::Real| #[trigger]
            call_ensures(K::exponential, (&m.kinetics, a), b) ==> worth(b) == exponential(worth(a)),
        forall|a: K::Real, b: K::Real| #[trigger]
            call_ensures(K::exponential_gain, (&m.kinetics, a), b) ==> worth(b) == exponential(
                worth(a),
            ) - 1real,
        forall|a: K::Real, g: bool| #[trigger]
            call_ensures(K::is_negligible, (&m.kinetics, a), g) ==> g == (worth(a) == 0real),
        forall|a: K::Real, b: K::Real, c: K::Real| #[trigger]
            call_ensures(K::smaller, (&m.kinetics, a, b), c) ==> worth(c) == if worth(a) < worth(b) {
                worth(a)
            } else {
                worth(b)
            },
        exponential(0real) == 1real,
    ensures
        ({
            let rate = worth(rates.growth) - worth(rates.depletion) * worth(n_e);
            let growth = exponential(rate * worth(dt));
            &&& worth(next) <= worth(rates.neutral)
            &&& rate == 0real && worth(next) < worth(rates.neutral) ==> worth(next) == worth(n_e)
                + worth(rates.source) * worth(dt)
            &&& rate != 0real && worth(dt) != 0real && worth(next) < worth(rates.neutral) ==> (worth(
                next,
            ) - worth(n_e) * growth) * rate == worth(rates.source) * (growth - 1real)
        }),
{
    reveal(balances_exactly);
    let k = m.kinetics;
    let (load, rate, x, d, free) = choose|
        load: K::Real,
        rate: K::Real,
        x: K::Real,
        d: K::Real,
        free: K::Real,
    |
        {
            &&& call_ensures(K::times, (&k, rates.depletion, n_e), load)
            &&& #[trigger] call_ensures(K::minus, (&k, rates.growth, load), rate)
            &&& #[trigger] call_ensures(K::times, (&k, rate, dt), x)
            &&& call_ensures(K::clamped, (&k, x), d)
            &&& #[trigger] m.is_unlimited(rates.source, n_e, dt, rate, d, free)
            &&& {
                ||| call_ensures(K::is_positive, (&k, rates.neutral), true) && call_ensures(
                    K::smaller,
                    (&k, free, rates.neutral),
                    next,
                )
                ||| call_ensures(K::is_positive, (&k, rates.neutral), false) && next == free
            }
        };
    let (span, growth, grown, fed) = choose|
        span: K::Real,
        growth: K::Real,
        grown: K::Real,
        fed: K::Real,
    |
        {
            &&& #[trigger] m.is_feeding(d, rate, dt, span)
            &&& #[trigger] call_ensures(K::exponential, (&k, d), growth)
            &&& #[trigger] call_ensures(K::times, (&k, n_e, growth), grown)
            &&& #[trigger] call_ensures(K::times, (&k, rates.source, span), fed)
            &&& call_ensures(K::plus, (&k, grown, fed), free)
        };
    let (r, t, s) = (worth(rate), worth(dt), worth(rates.source));
    assert(worth(d) == r * t);
    if r == 0real {
        lemma_nothing(t);
        assert(worth(growth) == 1real);
        assert(worth(n_e) * 1real == worth(n_e));
    } else if t != 0real {
        lemma_product_is_something(r, t);
        assert(worth(span) * r == worth(growth) - 1real);
        lemma_associates(s, worth(span), r);
    }
}

proof fn lemma_product_is_something(a: real, b: real)
    requires
        a != 0real,
        b != 0real,
    ensures
        a * b != 0real,
{
    if a * b == 0real {
        lemma_nothing(b);
        lemma_cancels(a, 0real, b);
    }
}

/// At a fixed mean energy the cascade is what the heating leaves over the inelastic loss,
/// and never negative: over the ionization energy where there is any left.
pub proof fn law_fixed_energy_cascade_is_what_heating_leaves<K: Kinetics>(
    m: Model<K>,
    intensity: K::Real,
    pressure: K::Real,
    nu: K::Real,
    worth: spec_fn(K::Real) -> real,
    heating: real,
    loss: real,
)
    requires
        balances_exactly(m.kinetics, worth),
        m.cascade == CascadeModel::FixedMeanEnergy,
        m.is_cascade(intensity, pressure, nu),
        worth(m.gas.u_ion) > 0real,
        forall|h: K::Real| #[trigger]
            call_ensures(K::heating, (&m.kinetics, m.omega, m.gas, intensity, pressure), h)
                ==> worth(h) == heating,
        forall|l: K::Real| #[trigger]
            call_ensures(K::inelastic_loss, (&m.kinetics, m.gas, pressure), l) ==> worth(l) == loss,
    ensures
        worth(nu) * worth(m.gas.u_ion) == if heating > loss {
            heating - loss
        } else {
            0real
        },
{
    reveal(balances_exactly);
}

/// There is no climb where the heating does not carry the electrons to the ionization
/// energy against their relaxation.
pub proof fn law_no_climb_below_the_ionization_energy<K: Kinetics>(
    m: Model<K>,
    intensity: K::Real,
    pressure: K::Real,
    nu: K::Real,
    worth: spec_fn(K::Real) -> real,
    heating: real,
    relaxation: real,
)
    requires
        balances_exactly(m.kinetics, worth),
        m.cascade == CascadeModel::SelfConsistentClimb,
        m.is_cascade(intensity, pressure, nu),
        forall|h: K::Real| #[trigger]
            call_ensures(K::heating, (&m.kinetics, m.omega, m.gas, intensity, pressure), h)
                ==> worth(h) == heating,
        forall|r: K::Real| #[trigger]
            call_ensures(K::relaxation, (&m.kinetics, m.gas, pressure), r) ==> worth(r)
                == relaxation,
        relaxation > 0real,
        heating <= worth(m.gas.u_ion) * relaxation,
    ensures
        worth(nu) == 0real,
{
    reveal(balances_exactly);
    let e = choose|e: K::Real|
        {
            &&& #[trigger] m.is_equilibrium(intensity, pressure, e)
            &&& {
                ||| call_ensures(K::is_at_most, (&m.kinetics, e, m.gas.u_ion), true) && m.is_off(nu)
                ||| call_ensures(K::is_at_most, (&m.kinetics, e, m.gas.u_ion), false)
                    && m.is_climbed(pressure, e, nu)
            }
        };
    assert(worth(e) * relaxation == heating);
    lemma_reads_order(worth(e), worth(m.gas.u_ion), relaxation);
}

} // verus!

//! Optical breakdown of a gas at a point: field ionization, the electron
//! cascade and the losses, integrated over a pulse, and the threshold intensity
//! that follows.
//!
//! The module holds what is decided: which ionization law applies, where a
//! series starts and stops, how a pulse is stepped, how the threshold is
//! bracketed. The formulas belong to a [`Kinetics`].
use crate::special::{is_ln_gamma, ln_gamma, Gamma};
use vstd::prelude::*;

verus! {

/// How the cascade turns heating into an ionization rate.
#[derive(Debug, Clone, Copy, PartialEq, Eq, Structural)]
pub enum CascadeModel {
    /// Net heating at a fixed mean energy.
    FixedMeanEnergy,
    /// The climb of an average electron against its own losses.
    SelfConsistentClimb,
    /// The first passage of the energy distribution.
    DistributionResolved,
}

/// Cells of the first-passage quadrature.
pub const FIRST_PASSAGE_STEPS: usize = 512;

/// Most terms of the sum over photon orders.
pub const PPT_ATI_MAX_TERMS: usize = 65536;

/// Bound on the terms of the near series of Dawson's integral.
pub const DAWSON_NEAR_TERMS: usize = 500;

/// Bound on the terms of the far series of Dawson's integral.
pub const DAWSON_FAR_TERMS: usize = 60;

/// Most halvings of the threshold bracket.
pub const MAX_BISECTIONS: usize = 200;

/// A rare gas: what fixes its ionization and its losses.
#[derive(Debug, Clone, Copy, PartialEq)]
pub struct MonatomicGas<R> {
    pub name: &'static str,
    pub u_ion: R,
    pub delta_elastic: R,
    pub u_excite: R,
}

/// The kinetic coefficients of a gas.
#[derive(Debug, Clone, Copy, PartialEq)]
pub struct Gas<R> {
    pub u_ion: R,
    /// Momentum-transfer collision frequency per pressure.
    pub k_m: R,
    /// Electron diffusion coefficient at the reference pressure.
    pub d_e_ref: R,
    /// Energy lost per collision, as a fraction.
    pub delta_eff: R,
    pub mean_energy: R,
    pub k_att_2body: R,
    pub k_att_3body: R,
    /// Fraction of the gas that attaches.
    pub f_att: R,
}

/// The focal region.
#[derive(Debug, Clone, Copy, PartialEq)]
pub struct Focus<R> {
    pub lambda_diff: R,
    pub mean_chord: R,
    pub volume: R,
}

/// Why a model could not be built or has no threshold.
#[derive(Debug, Clone, Copy, PartialEq)]
pub enum BreakdownError<R> {
    BadWavelength,
    BadFocus,
    BadTemperature,
    BadIonizationEnergy,
    BadPressure,
    /// The floor of the bracket already breaks the gas down at this pressure.
    BelowBracket { floor: R, pressure: R },
    /// The ceiling of the bracket does not break the gas down at this pressure.
    AboveBracket { ceiling: R, pressure: R },
}

/// The arithmetic of the kinetics, one formula at a time.
pub trait Kinetics: Sized {
    type Real: Copy;

    /// The arithmetic of the gamma function.
    type Series: Gamma<Real = Self::Real>;

    fn series(&self) -> Self::Series;

    fn zero(&self) -> Self::Real;

    fn one(&self) -> Self::Real;

    fn half(&self) -> Self::Real;

    fn not_a_number(&self) -> Self::Real;

    fn infinity(&self) -> Self::Real;

    fn plus(&self, a: Self::Real, b: Self::Real) -> Self::Real;

    fn minus(&self, a: Self::Real, b: Self::Real) -> Self::Real;

    fn times(&self, a: Self::Real, b: Self::Real) -> Self::Real;

    fn ratio(&self, a: Self::Real, b: Self::Real) -> Self::Real;

    fn negate(&self, a: Self::Real) -> Self::Real;

    fn magnitude(&self, a: Self::Real) -> Self::Real;

    fn larger(&self, a: Self::Real, b: Self::Real) -> Self::Real;

    fn smaller(&self, a: Self::Real, b: Self::Real) -> Self::Real;

    fn exponential(&self, a: Self::Real) -> Self::Real;

    /// Exponential less one.
    fn exponential_gain(&self, a: Self::Real) -> Self::Real;

    /// Whether `a > b`.
    fn exceeds(&self, a: Self::Real, b: Self::Real) -> bool;

    /// Whether `a >= b`.
    fn reaches(&self, a: Self::Real, b: Self::Real) -> bool;

    /// Whether `a <= b`.
    fn is_at_most(&self, a: Self::Real, b: Self::Real) -> bool;

    fn is_positive(&self, a: Self::Real) -> bool;

    /// Whether a quantity is positive and finite.
    fn is_valid(&self, a: Self::Real) -> bool;

    fn is_finite(&self, a: Self::Real) -> bool;

    fn is_zero(&self, a: Self::Real) -> bool;

    fn is_nan(&self, a: Self::Real) -> bool;

    /// Whether a first passage can be computed: all four positive, and finite.
    fn climbs(
        &self,
        nu_relax: Self::Real,
        eps_inf: Self::Real,
        u_ion: Self::Real,
        photon: Self::Real,
    ) -> bool;

    /// Whether the barrier is too high for any passage.
    fn is_blocked(&self, eps_inf: Self::Real, u_ion: Self::Real, photon: Self::Real) -> bool;

    /// Cell width of a quadrature of `n` cells up to `u_ion`.
    fn passage_step(&self, u_ion: Self::Real, n: usize) -> Self::Real;

    /// Potential of the drift at the energy `k * h`.
    fn passage_potential(
        &self,
        eps_inf: Self::Real,
        photon: Self::Real,
        h: Self::Real,
        k: usize,
    ) -> Self::Real;

    /// Growth of the inner integral between two potentials.
    fn passage_growth(&self, now: Self::Real, before: Self::Real) -> Self::Real;

    /// Inner integral after a cell of growth `r`.
    fn passage_inner(&self, r: Self::Real, s: Self::Real, h: Self::Real) -> Self::Real;

    /// Outer integral after a point of weight `w`.
    fn passage_outer(
        &self,
        total: Self::Real,
        s: Self::Real,
        w: Self::Real,
        h: Self::Real,
    ) -> Self::Real;

    /// Passage time of a double integral.
    fn passage_time(
        &self,
        total: Self::Real,
        nu_relax: Self::Real,
        eps_inf: Self::Real,
        photon: Self::Real,
    ) -> Self::Real;

    fn keldysh_gamma(&self, intensity: Self::Real, omega: Self::Real, u_ion: Self::Real) -> Self::Real;

    /// Whether the tunnel exponent is taken from its series.
    fn is_small_gamma(&self, gamma: Self::Real) -> bool;

    fn exponent_series(&self, gamma: Self::Real) -> Self::Real;

    fn exponent_closed(&self, gamma: Self::Real) -> Self::Real;

    /// Tunnelling action of an exponent.
    fn keldysh_action(&self, u_ion: Self::Real, omega: Self::Real, exponent: Self::Real) -> Self::Real;

    fn keldysh_law(&self, prefactor: Self::Real, omega: Self::Real, action: Self::Real) -> Self::Real;

    /// Whether Dawson's integral is taken from its near series.
    fn is_dawson_near(&self, x: Self::Real) -> bool;

    /// Term `n` of the near series from the one before.
    fn dawson_near(&self, term: Self::Real, x: Self::Real, n: usize) -> Self::Real;

    /// Whether a term no longer changes a sum.
    fn is_spent_term(&self, term: Self::Real, sum: Self::Real) -> bool;

    fn dawson_far_first(&self, x: Self::Real) -> Self::Real;

    /// Term `n` of the far series from the one before.
    fn dawson_far(&self, term: Self::Real, x: Self::Real, n: usize) -> Self::Real;

    /// Decay per photon order.
    fn ati_decay(&self, gamma: Self::Real) -> Self::Real;

    /// Photon orders until the sum has decayed, rounded up.
    fn ati_count(&self, decay: Self::Real) -> usize;

    /// Excess of photon order `k` above a threshold order.
    fn ati_excess(&self, threshold: Self::Real, k: usize) -> Self::Real;

    fn ati_exponent(&self, decay: Self::Real, excess: Self::Real) -> Self::Real;

    /// Whether an exponent underflows.
    fn is_underflow(&self, exponent: Self::Real) -> bool;

    fn ati_argument(&self, gamma: Self::Real, excess: Self::Real) -> Self::Real;

    fn ati_scale(&self, gamma: Self::Real, sum: Self::Real) -> Self::Real;

    fn ppt_gamma(&self, intensity: Self::Real, omega: Self::Real, u_ion: Self::Real) -> Self::Real;

    /// Whether the sum over photon orders is replaced by its tunnelling limit.
    fn is_tunnelling(&self, gamma: Self::Real) -> bool;

    /// Threshold photon order in the field.
    fn ppt_threshold(&self, u_ion: Self::Real, omega: Self::Real, gamma: Self::Real) -> Self::Real;

    /// Effective principal quantum number of a bound electron.
    fn effective_number(&self, u_ion: Self::Real, z_eff: Self::Real) -> Self::Real;

    /// Logarithm of the rate, given the logarithms of the gamma function at the
    /// effective quantum number and one above it.
    fn ppt_logarithm(
        &self,
        intensity: Self::Real,
        omega: Self::Real,
        u_ion: Self::Real,
        z_eff: Self::Real,
        a0: Self::Real,
        exponent: Self::Real,
        ln_gammas: (Self::Real, Self::Real),
    ) -> Self::Real;

    fn ppt_law(&self, logarithm: Self::Real) -> Self::Real;

    /// Rate of a power law through a reference point.
    fn reference_law(
        &self,
        rate: Self::Real,
        intensity: Self::Real,
        reference: Self::Real,
        photons: i32,
    ) -> Self::Real;

    fn attachment(&self, gas: Gas<Self::Real>, n_neutral: Self::Real) -> Self::Real;

    fn mean_speed(&self, gas: Gas<Self::Real>) -> Self::Real;

    fn kinetic_diffusion(
        &self,
        gas: Gas<Self::Real>,
        pressure: Self::Real,
        energy: Self::Real,
    ) -> Self::Real;

    fn implied_energy(
        &self,
        gas: Gas<Self::Real>,
        pressure: Self::Real,
        d_e: Self::Real,
    ) -> Self::Real;

    /// Inelastic loss of a rare gas as a fraction of the climb.
    fn inelastic_fraction(&self, gas: MonatomicGas<Self::Real>) -> Self::Real;

    /// Density of electrons that the ambient ionization sustains.
    fn ambient_density(&self, pressure: Self::Real, nu_att: Self::Real) -> Self::Real;

    fn heating(
        &self,
        omega: Self::Real,
        gas: Gas<Self::Real>,
        intensity: Self::Real,
        pressure: Self::Real,
    ) -> Self::Real;

    fn inelastic_loss(&self, gas: Gas<Self::Real>, pressure: Self::Real) -> Self::Real;

    /// Rate at which an electron's energy relaxes.
    fn relaxation(&self, gas: Gas<Self::Real>, pressure: Self::Real) -> Self::Real;

    fn climb_rate(
        &self,
        nu_relax: Self::Real,
        eps_inf: Self::Real,
        u_ion: Self::Real,
    ) -> Self::Real;

    fn photon_energy(&self, omega: Self::Real) -> Self::Real;

    fn diffusion(&self, gas: Gas<Self::Real>, pressure: Self::Real) -> Self::Real;

    fn escape(
        &self,
        gas: Gas<Self::Real>,
        focus: Focus<Self::Real>,
        d_e: Self::Real,
        speed: Self::Real,
    ) -> Self::Real;

    fn knudsen(
        &self,
        gas: Gas<Self::Real>,
        focus: Focus<Self::Real>,
        speed: Self::Real,
        pressure: Self::Real,
    ) -> Self::Real;

    fn plateau(&self, omega: Self::Real, u_ion: Self::Real, delta_eff: Self::Real) -> Self::Real;

    /// An exponent, no larger than the largest usable one.
    fn capped(&self, exponent: Self::Real) -> Self::Real;

    /// An exponent, within the usable range on both sides.
    fn clamped(&self, exponent: Self::Real) -> Self::Real;

    /// Whether an exponent is too small to divide by.
    fn is_negligible(&self, exponent: Self::Real) -> bool;

    fn half_window(&self, half_widths: Self::Real, fwhm: Self::Real) -> Self::Real;

    fn pulse_step(&self, half: Self::Real, n_steps: usize) -> Self::Real;

    /// Intensity of a pulse at the middle of a step.
    fn pulse_intensity(
        &self,
        i_peak: Self::Real,
        fwhm: Self::Real,
        half: Self::Real,
        dt: Self::Real,
        step: usize,
    ) -> Self::Real;

    fn bracket_floor(&self) -> Self::Real;

    fn bracket_ceiling(&self) -> Self::Real;

    fn geometric_mean(&self, lo: Self::Real, hi: Self::Real) -> Self::Real;

    /// Whether a bracket is as narrow as is asked for.
    fn is_narrow(&self, lo: Self::Real, hi: Self::Real) -> bool;

    /// Point `i` of `parts` logarithmic parts from `lo` to `hi`.
    fn log_spaced(&self, lo: Self::Real, hi: Self::Real, i: usize, parts: usize) -> Self::Real;

    fn angular_frequency(&self, wavelength: Self::Real) -> Self::Real;

    /// Photons that it takes to ionize.
    fn photon_count(&self, u_ion: Self::Real, omega: Self::Real) -> i32;

    /// Neutral density per pressure.
    fn density_per_pressure(&self, temperature: Self::Real) -> Self::Real;

    fn default_criterion(&self) -> Self::Real;

    fn default_charge(&self) -> Self::Real;

    fn default_window(&self) -> Self::Real;

    /// Energy of that many electron volts.
    fn electron_volts(&self, ev: Self::Real) -> Self::Real;

    /// The reference point of the measured multiphoton rate: intensity, photon
    /// order, and the rate that reaches `criterion` in a pulse.
    fn measured_rate(
        &self,
        criterion: Self::Real,
        n_over_p: Self::Real,
        pressure: Self::Real,
        fwhm: Self::Real,
    ) -> Self::Real;

    fn measured_intensity(&self) -> Self::Real;

    fn measured_photons(&self) -> i32;
}

/// State of the first-passage quadrature: inner integral, outer integral and
/// the potential reached.
#[derive(Clone, Copy)]
pub struct Passage<R> {
    pub s: R,
    pub total: R,
    pub phi: R,
}

/// The quadrature takes `a` to `b` at point `j` of `n`.
pub open spec fn is_passage_point<K: Kinetics>(
    k: K,
    eps_inf: K::Real,
    photon: K::Real,
    h: K::Real,
    n: int,
    j: int,
    a: Passage<K::Real>,
    b: Passage<K::Real>,
) -> bool {
    &&& call_ensures(K::passage_potential, (&k, eps_inf, photon, h, j as usize), b.phi)
    &&& exists|r: K::Real, w: K::Real| #[trigger] is_passage_sum(k, h, n, j, a, b, r, w)
}

/// Both integrals over a cell of growth `r` to a point of weight `w`, a half at
/// the end of the sweep and one before.
pub open spec fn is_passage_sum<K: Kinetics>(
    k: K,
    h: K::Real,
    n: int,
    j: int,
    a: Passage<K::Real>,
    b: Passage<K::Real>,
    r: K::Real,
    w: K::Real,
) -> bool {
    &&& call_ensures(K::passage_growth, (&k, b.phi, a.phi), r)
    &&& call_ensures(K::passage_inner, (&k, r, a.s, h), b.s)
    &&& if j == n {
        call_ensures(K::half, (&k,), w)
    } else {
        call_ensures(K::one, (&k,), w)
    }
    &&& call_ensures(K::passage_outer, (&k, a.total, b.s, w, h), b.total)
}

/// `run[j]` is the quadrature after `j` points, all finite but possibly the
/// last.
pub open spec fn is_passage_run<K: Kinetics>(
    k: K,
    eps_inf: K::Real,
    photon: K::Real,
    h: K::Real,
    n: int,
    run: Seq<Passage<K::Real>>,
) -> bool {
    &&& run.len() > 0
    &&& call_ensures(K::zero, (&k,), run[0].s)
    &&& call_ensures(K::zero, (&k,), run[0].total)
    &&& call_ensures(K::passage_potential, (&k, eps_inf, photon, h, 0usize), run[0].phi)
    &&& forall|j: int|
        0 <= j < run.len() - 1 ==> #[trigger] is_passage_leg(k, eps_inf, photon, h, n, run, j)
    &&& forall|j: int|
        0 < j < run.len() - 1 ==> call_ensures(K::is_finite, (&k, (#[trigger] run[j]).total), true)
}

/// Leg `j` of a quadrature leads to its point `j + 1`.
pub open spec fn is_passage_leg<K: Kinetics>(
    k: K,
    eps_inf: K::Real,
    photon: K::Real,
    h: K::Real,
    n: int,
    run: Seq<Passage<K::Real>>,
    j: int,
) -> bool {
    is_passage_point(k, eps_inf, photon, h, n, j + 1, run[j], run[j + 1])
}

/// What [`first_passage_integral`] may return: the outer integral, or infinity
/// as soon as it is not finite.
pub open spec fn is_passage_integral<K: Kinetics>(
    k: K,
    eps_inf: K::Real,
    u_ion: K::Real,
    photon: K::Real,
    n: int,
    total: K::Real,
) -> bool {
    exists|h: K::Real, run: Seq<Passage<K::Real>>|
        {
            &&& call_ensures(K::passage_step, (&k, u_ion, n as usize), h)
            &&& #[trigger] is_passage_run(k, eps_inf, photon, h, n, run)
            &&& is_passage_result(k, n, run, total)
        }
}

pub open spec fn is_passage_result<K: Kinetics>(
    k: K,
    n: int,
    run: Seq<Passage<K::Real>>,
    total: K::Real,
) -> bool {
    ||| run.len() == n + 1 && total == run.last().total && (n > 0 ==> call_ensures(
        K::is_finite,
        (&k, total),
        true,
    ))
    ||| 1 < run.len() <= n + 1 && call_ensures(K::is_finite, (&k, run.last().total), false)
        && call_ensures(K::infinity, (&k,), total)
}

/// Double integral of the first passage, by one sweep of `n` cells.
pub fn first_passage_integral<K: Kinetics>(
    k: &K,
    eps_inf: K::Real,
    u_ion: K::Real,
    photon: K::Real,
    n: usize,
) -> (total: K::Real)
    requires
        n < usize::MAX,
    ensures
        is_passage_integral(*k, eps_inf, u_ion, photon, n as int, total),
{
    let h: K::Real = k.passage_step(u_ion, n);
    let mut at: Passage<K::Real> = Passage {
        s: k.zero(),
        total: k.zero(),
        phi: k.passage_potential(eps_inf, photon, h, 0),
    };
    let ghost mut run: Seq<Passage<K::Real>> = seq![at];
    let mut j: usize = 0;
    while j < n
        invariant
            j <= n < usize::MAX,
            call_ensures(K::passage_step, (k, u_ion, n), h),
            run.len() == j + 1,
            run.last() == at,
            is_passage_run(*k, eps_inf, photon, h, n as int, run),
            j > 0 ==> call_ensures(K::is_finite, (k, at.total), true),
        decreases n - j,
    {
        j = j + 1;
        let phi: K::Real = k.passage_potential(eps_inf, photon, h, j);
        let r: K::Real = k.passage_growth(phi, at.phi);
        let s: K::Real = k.passage_inner(r, at.s, h);
        let w: K::Real = if j == n {
            k.half()
        } else {
            k.one()
        };
        let total: K::Real = k.passage_outer(at.total, s, w, h);
        let next: Passage<K::Real> = Passage { s, total, phi };
        proof {
            assert(is_passage_sum(*k, h, n as int, j as int, at, next, r, w));
            assert(is_passage_point(*k, eps_inf, photon, h, n as int, j as int, at, next));
            let run2 = run.push(next);
            assert forall|i: int| 0 <= i < run2.len() - 1 implies #[trigger] is_passage_leg(
                *k,
                eps_inf,
                photon,
                h,
                n as int,
                run2,
                i,
            ) by {
                if i < run.len() - 1 {
                    assert(is_passage_leg(*k, eps_inf, photon, h, n as int, run, i));
                }
            }
            assert forall|i: int| 0 < i < run2.len() - 1 implies call_ensures(
                K::is_finite,
                (k, (#[trigger] run2[i]).total),
                true,
            ) by {
                if i < run.len() - 1 {
                    assert(run2[i] == run[i]);
                }
            }
            run = run2;
        }
        at = next;
        if !k.is_finite(total) {
            let inf: K::Real = k.infinity();
            proof {
                assert(is_passage_run(*k, eps_inf, photon, h, n as int, run));
                assert(is_passage_result(*k, n as int, run, inf));
            }
            return inf;
        }
    }
    proof {
        assert(is_passage_result(*k, n as int, run, at.total));
    }
    at.total
}

/// What [`first_passage_ionization_rate`] may return.
pub open spec fn is_passage_rate<K: Kinetics>(
    k: K,
    nu_relax: K::Real,
    eps_inf: K::Real,
    u_ion: K::Real,
    photon: K::Real,
    rate: K::Real,
) -> bool {
    let none = call_ensures(K::zero, (&k,), rate);
    let climbs = call_ensures(K::climbs, (&k, nu_relax, eps_inf, u_ion, photon), true);
    ||| call_ensures(K::climbs, (&k, nu_relax, eps_inf, u_ion, photon), false) && none
    ||| climbs && call_ensures(K::is_blocked, (&k, eps_inf, u_ion, photon), true) && none
    ||| climbs && call_ensures(K::is_blocked, (&k, eps_inf, u_ion, photon), false)
        && exists|total: K::Real, t: K::Real|
        {
            &&& is_passage_integral(
                k,
                eps_inf,
                u_ion,
                photon,
                FIRST_PASSAGE_STEPS as int,
                total,
            )
            &&& #[trigger] call_ensures(K::passage_time, (&k, total, nu_relax, eps_inf, photon), t)
            &&& is_reciprocal(k, t, rate)
        }
}

/// `rate` is one over a valid time, and nothing for any other.
pub open spec fn is_reciprocal<K: Kinetics>(k: K, t: K::Real, rate: K::Real) -> bool {
    ||| call_ensures(K::is_valid, (&k, t), false) && call_ensures(K::zero, (&k,), rate)
    ||| call_ensures(K::is_valid, (&k, t), true) && exists|one: K::Real| #[trigger]
        call_ensures(K::one, (&k,), one) && call_ensures(K::ratio, (&k, one, t), rate)
}

/// Ionization rate of a cascade whose energy distribution diffuses up to the
/// ionization energy.
pub fn first_passage_ionization_rate<K: Kinetics>(
    k: &K,
    nu_relax: K::Real,
    eps_inf: K::Real,
    u_ion: K::Real,
    photon: K::Real,
) -> (rate: K::Real)
    ensures
        is_passage_rate(*k, nu_relax, eps_inf, u_ion, photon, rate),
{
    if !k.climbs(nu_relax, eps_inf, u_ion, photon) {
        return k.zero();
    }
    if k.is_blocked(eps_inf, u_ion, photon) {
        return k.zero();
    }
    let total: K::Real = first_passage_integral(k, eps_inf, u_ion, photon, FIRST_PASSAGE_STEPS);
    let t: K::Real = k.passage_time(total, nu_relax, eps_inf, photon);
    if k.is_valid(t) {
        let one: K::Real = k.one();
        let rate: K::Real = k.ratio(one, t);
        proof {
            assert(is_reciprocal(*k, t, rate));
        }
        rate
    } else {
        let rate: K::Real = k.zero();
        proof {
            assert(is_reciprocal(*k, t, rate));
        }
        rate
    }
}

/// What [`keldysh_tunnel_exponent`] may return.
pub open spec fn is_tunnel_exponent<K: Kinetics>(k: K, gamma: K::Real, x: K::Real) -> bool {
    let valid = call_ensures(K::is_valid, (&k, gamma), true);
    ||| call_ensures(K::is_valid, (&k, gamma), false) && call_ensures(K::not_a_number, (&k,), x)
    ||| valid && call_ensures(K::is_small_gamma, (&k, gamma), true) && call_ensures(
        K::exponent_series,
        (&k, gamma),
        x,
    )
    ||| valid && call_ensures(K::is_small_gamma, (&k, gamma), false) && call_ensures(
        K::exponent_closed,
        (&k, gamma),
        x,
    )
}

/// Tunnelling exponent of an adiabaticity parameter: the closed form, or its
/// series where the closed form cancels. Not a number outside its domain.
pub fn keldysh_tunnel_exponent<K: Kinetics>(k: &K, gamma: K::Real) -> (x: K::Real)
    ensures
        is_tunnel_exponent(*k, gamma, x),
{
    if !k.is_valid(gamma) {
        return k.not_a_number();
    }
    if k.is_small_gamma(gamma) {
        return k.exponent_series(gamma);
    }
    k.exponent_closed(gamma)
}

/// What [`keldysh_rate`] may return.
pub open spec fn is_keldysh_rate<K: Kinetics>(
    k: K,
    intensity: K::Real,
    omega: K::Real,
    u_ion: K::Real,
    prefactor: K::Real,
    rate: K::Real,
) -> bool {
    let none = call_ensures(K::zero, (&k,), rate);
    ||| none && exists|zero: K::Real|
        {
            &&& #[trigger] call_ensures(K::zero, (&k,), zero)
            &&& call_ensures(K::is_at_most, (&k, intensity, zero), true) || call_ensures(
                K::is_at_most,
                (&k, prefactor, zero),
                true,
            )
        }
    ||| exists|zero: K::Real, gamma: K::Real, x: K::Real, action: K::Real|
        {
            &&& #[trigger] call_ensures(K::zero, (&k,), zero)
            &&& call_ensures(K::is_at_most, (&k, intensity, zero), false)
            &&& call_ensures(K::is_at_most, (&k, prefactor, zero), false)
            &&& call_ensures(K::keldysh_gamma, (&k, intensity, omega, u_ion), gamma)
            &&& #[trigger] is_tunnel_exponent(k, gamma, x)
            &&& #[trigger] call_ensures(K::keldysh_action, (&k, u_ion, omega, x), action)
            &&& {
                ||| call_ensures(K::is_finite, (&k, action), false) && none
                ||| call_ensures(K::is_finite, (&k, action), true) && call_ensures(
                    K::keldysh_law,
                    (&k, prefactor, omega, action),
                    rate,
                )
            }
        }
}

/// Field-ionization rate with exponential accuracy and a given prefactor.
pub fn keldysh_rate<K: Kinetics>(
    k: &K,
    intensity: K::Real,
    omega: K::Real,
    u_ion: K::Real,
    prefactor: K::Real,
) -> (rate: K::Real)
    ensures
        is_keldysh_rate(*k, intensity, omega, u_ion, prefactor, rate),
{
    let zero: K::Real = k.zero();
    if k.is_at_most(intensity, zero) || k.is_at_most(prefactor, zero) {
        return k.zero();
    }
    let gamma: K::Real = k.keldysh_gamma(intensity, omega, u_ion);
    let x: K::Real = keldysh_tunnel_exponent(k, gamma);
    let action: K::Real = k.keldysh_action(u_ion, omega, x);
    if !k.is_finite(action) {
        return k.zero();
    }
    k.keldysh_law(prefactor, omega, action)
}

/// `terms` and `sums` are the near series up to some order, no sum spent before
/// the last.
pub open spec fn is_near_series<K: Kinetics>(
    k: K,
    x: K::Real,
    terms: Seq<K::Real>,
    sums: Seq<K::Real>,
) -> bool {
    &&& 0 < terms.len() == sums.len() <= DAWSON_NEAR_TERMS
    &&& terms[0] == x
    &&& sums[0] == x
    &&& forall|i: int|
        0 <= i < terms.len() - 1 ==> #[trigger] is_near_term(k, x, terms, sums, i)
    &&& forall|i: int|
        0 < i < terms.len() - 1 ==> call_ensures(
            K::is_spent_term,
            (&k, #[trigger] terms[i], sums[i]),
            false,
        )
}

/// Term `i + 1` of the near series, and the sum with it.
pub open spec fn is_near_term<K: Kinetics>(
    k: K,
    x: K::Real,
    terms: Seq<K::Real>,
    sums: Seq<K::Real>,
    i: int,
) -> bool {
    &&& call_ensures(K::dawson_near, (&k, terms[i], x, (i + 1) as usize), terms[i + 1])
    &&& call_ensures(K::plus, (&k, sums[i], terms[i + 1]), sums[i + 1])
}

/// `sum` is the near series: up to the first spent term, or to the last allowed.
pub open spec fn is_near_sum<K: Kinetics>(k: K, x: K::Real, sum: K::Real) -> bool {
    exists|terms: Seq<K::Real>, sums: Seq<K::Real>|
        {
            &&& #[trigger] is_near_series(k, x, terms, sums)
            &&& sums.last() == sum
            &&& terms.len() == DAWSON_NEAR_TERMS || (terms.len() > 1 && call_ensures(
                K::is_spent_term,
                (&k, terms.last(), sum),
                true,
            ))
        }
}

/// `terms` and `sums` are the far series up to some order, each term no larger
/// than the one before.
pub open spec fn is_far_series<K: Kinetics>(
    k: K,
    x: K::Real,
    terms: Seq<K::Real>,
    sums: Seq<K::Real>,
) -> bool {
    &&& 0 < terms.len() == sums.len() <= DAWSON_FAR_TERMS
    &&& call_ensures(K::dawson_far_first, (&k, x), terms[0])
    &&& sums[0] == terms[0]
    &&& forall|i: int| 0 <= i < terms.len() - 1 ==> #[trigger] is_far_term(k, x, terms, sums, i)
}

/// Term `i + 1` of the far series, and the sum with it.
pub open spec fn is_far_term<K: Kinetics>(
    k: K,
    x: K::Real,
    terms: Seq<K::Real>,
    sums: Seq<K::Real>,
    i: int,
) -> bool {
    &&& is_far_next(k, x, terms[i], (i + 1) as usize, terms[i + 1], false)
    &&& call_ensures(K::plus, (&k, sums[i], terms[i + 1]), sums[i + 1])
}

/// `next` follows `term` in the far series; `grows` says whether it is larger.
pub open spec fn is_far_next<K: Kinetics>(
    k: K,
    x: K::Real,
    term: K::Real,
    n: usize,
    next: K::Real,
    grows: bool,
) -> bool {
    exists|now: K::Real, before: K::Real|
        {
            &&& call_ensures(K::dawson_far, (&k, term, x, n), next)
            &&& #[trigger] call_ensures(K::magnitude, (&k, next), now)
            &&& #[trigger] call_ensures(K::magnitude, (&k, term), before)
            &&& call_ensures(K::exceeds, (&k, now, before), grows)
        }
}

/// `sum` is the far series: up to the smallest term, or to the last allowed.
pub open spec fn is_far_sum<K: Kinetics>(k: K, x: K::Real, sum: K::Real) -> bool {
    exists|terms: Seq<K::Real>, sums: Seq<K::Real>|
        {
            &&& #[trigger] is_far_series(k, x, terms, sums)
            &&& sums.last() == sum
            &&& terms.len() == DAWSON_FAR_TERMS || is_turning(k, x, terms)
        }
}

/// The far series starts to grow after these terms.
pub open spec fn is_turning<K: Kinetics>(k: K, x: K::Real, terms: Seq<K::Real>) -> bool {
    exists|next: K::Real| #[trigger]
        is_far_next(k, x, terms.last(), terms.len() as usize, next, true)
}

/// What [`dawson`] may return for an argument that is not negative.
pub open spec fn is_dawson_upper<K: Kinetics>(k: K, x: K::Real, y: K::Real) -> bool {
    ||| call_ensures(K::is_dawson_near, (&k, x), true) && is_near_sum(k, x, y)
    ||| call_ensures(K::is_dawson_near, (&k, x), false) && is_far_sum(k, x, y)
}

/// What [`dawson`] may return.
pub open spec fn is_dawson<K: Kinetics>(k: K, x: K::Real, y: K::Real) -> bool {
    let plain = call_ensures(K::is_zero, (&k, x), false) && call_ensures(
        K::is_finite,
        (&k, x),
        true,
    );
    let special = call_ensures(K::is_zero, (&k, x), true) || call_ensures(
        K::is_finite,
        (&k, x),
        false,
    );
    ||| special && call_ensures(K::is_nan, (&k, x), true) && call_ensures(
        K::not_a_number,
        (&k,),
        y,
    )
    ||| special && call_ensures(K::is_nan, (&k, x), false) && call_ensures(K::zero, (&k,), y)
    ||| plain && call_ensures(K::is_positive, (&k, x), true) && is_dawson_upper(k, x, y)
    ||| plain && call_ensures(K::is_positive, (&k, x), false)
        && exists|mirrored: K::Real, z: K::Real|
        {
            &&& call_ensures(K::negate, (&k, x), mirrored)
            &&& #[trigger] is_dawson_upper(k, mirrored, z)
            &&& call_ensures(K::negate, (&k, z), y)
        }
}

/// Near series of Dawson's integral.
fn dawson_near_sum<K: Kinetics>(k: &K, x: K::Real) -> (sum: K::Real)
    ensures
        is_near_sum(*k, x, sum),
{
    let mut term: K::Real = x;
    let mut sum: K::Real = x;
    let ghost mut terms: Seq<K::Real> = seq![x];
    let ghost mut sums: Seq<K::Real> = seq![x];
    let mut n: usize = 1;
    while n < DAWSON_NEAR_TERMS
        invariant
            1 <= n <= DAWSON_NEAR_TERMS,
            terms.len() == n,
            terms.last() == term,
            sums.last() == sum,
            is_near_series(*k, x, terms, sums),
            n > 1 ==> call_ensures(K::is_spent_term, (k, term, sum), false),
        decreases DAWSON_NEAR_TERMS - n,
    {
        let next: K::Real = k.dawson_near(term, x, n);
        let total: K::Real = k.plus(sum, next);
        proof {
            let t2 = terms.push(next);
            let s2 = sums.push(total);
            assert forall|i: int| 0 <= i < t2.len() - 1 implies #[trigger] is_near_term(
                *k,
                x,
                t2,
                s2,
                i,
            ) by {
                if i < terms.len() - 1 {
                    assert(is_near_term(*k, x, terms, sums, i));
                }
            }
            assert forall|i: int| 0 < i < t2.len() - 1 implies call_ensures(
                K::is_spent_term,
                (k, #[trigger] t2[i], s2[i]),
                false,
            ) by {
                if i < terms.len() - 1 {
                    assert(terms[i] == t2[i]);
                }
            }
            terms = t2;
            sums = s2;
            assert(is_near_series(*k, x, terms, sums));
        }
        term = next;
        sum = total;
        if k.is_spent_term(term, sum) {
            return sum;
        }
        n = n + 1;
    }
    sum
}

/// Far series of Dawson's integral.
fn dawson_far_sum<K: Kinetics>(k: &K, x: K::Real) -> (sum: K::Real)
    ensures
        is_far_sum(*k, x, sum),
{
    let mut term: K::Real = k.dawson_far_first(x);
    let mut sum: K::Real = term;
    let ghost mut terms: Seq<K::Real> = seq![term];
    let ghost mut sums: Seq<K::Real> = seq![term];
    let mut n: usize = 1;
    while n < DAWSON_FAR_TERMS
        invariant
            1 <= n <= DAWSON_FAR_TERMS,
            terms.len() == n,
            terms.last() == term,
            sums.last() == sum,
            is_far_series(*k, x, terms, sums),
        decreases DAWSON_FAR_TERMS - n,
    {
        let next: K::Real = k.dawson_far(term, x, n);
        let now: K::Real = k.magnitude(next);
        let before: K::Real = k.magnitude(term);
        let grows: bool = k.exceeds(now, before);
        proof {
            assert(is_far_next(*k, x, term, n, next, grows));
        }
        if grows {
            proof {
                assert(is_far_next(*k, x, terms.last(), terms.len() as usize, next, true));
                assert(is_turning(*k, x, terms));
            }
            return sum;
        }
        let total: K::Real = k.plus(sum, next);
        proof {
            let t2 = terms.push(next);
            let s2 = sums.push(total);
            assert forall|i: int| 0 <= i < t2.len() - 1 implies #[trigger] is_far_term(
                *k,
                x,
                t2,
                s2,
                i,
            ) by {
                if i < terms.len() - 1 {
                    assert(is_far_term(*k, x, terms, sums, i));
                }
            }
            terms = t2;
            sums = s2;
        }
        term = next;
        sum = total;
        n = n + 1;
    }
    sum
}

/// Dawson's integral of an argument that is not negative.
fn dawson_upper<K: Kinetics>(k: &K, x: K::Real) -> (y: K::Real)
    ensures
        is_dawson_upper(*k, x, y),
{
    if k.is_dawson_near(x) {
        dawson_near_sum(k, x)
    } else {
        dawson_far_sum(k, x)
    }
}

/// Dawson's integral: odd, from a convergent series near the origin and an
/// asymptotic one, cut at its smallest term, far from it.
pub fn dawson<K: Kinetics>(k: &K, x: K::Real) -> (y: K::Real)
    ensures
        is_dawson(*k, x, y),
{
    if k.is_zero(x) || !k.is_finite(x) {
        return if k.is_nan(x) {
            k.not_a_number()
        } else {
            k.zero()
        };
    }
    if !k.is_positive(x) {
        let mirrored: K::Real = k.negate(x);
        let z: K::Real = dawson_upper(k, mirrored);
        proof {
            assert(is_dawson_upper(*k, mirrored, z));
        }
        return k.negate(z);
    }
    dawson_upper(k, x)
}

/// `a` brought into `1..=top`.
pub open spec fn clamped_terms(a: usize) -> usize {
    if a < 1 {
        1
    } else if a > PPT_ATI_MAX_TERMS {
        PPT_ATI_MAX_TERMS
    } else {
        a
    }
}

/// What [`ppt_ati_terms`] may return.
pub open spec fn is_ati_terms<K: Kinetics>(k: K, gamma: K::Real, n: usize) -> bool {
    exists|decay: K::Real|
        {
            &&& #[trigger] call_ensures(K::ati_decay, (&k, gamma), decay)
            &&& {
                ||| call_ensures(K::is_valid, (&k, decay), false) && n == PPT_ATI_MAX_TERMS
                ||| call_ensures(K::is_valid, (&k, decay), true) && exists|count: usize| #[trigger]
                    call_ensures(K::ati_count, (&k, decay), count) && n == clamped_terms(count)
            }
        }
}

/// How many photon orders to sum: until the sum has decayed, one at least and
/// [`PPT_ATI_MAX_TERMS`] at most.
pub fn ppt_ati_terms<K: Kinetics>(k: &K, gamma: K::Real) -> (n: usize)
    ensures
        is_ati_terms(*k, gamma, n),
        1 <= n <= PPT_ATI_MAX_TERMS,
{
    let decay: K::Real = k.ati_decay(gamma);
    if !k.is_valid(decay) {
        return PPT_ATI_MAX_TERMS;
    }
    let count: usize = k.ati_count(decay);
    if count < 1 {
        1
    } else if count > PPT_ATI_MAX_TERMS {
        PPT_ATI_MAX_TERMS
    } else {
        count
    }
}

/// `after` is `before` plus the term of photon order `j`.
pub open spec fn is_ati_term<K: Kinetics>(
    k: K,
    gamma: K::Real,
    nu: K::Real,
    decay: K::Real,
    j: int,
    before: K::Real,
    after: K::Real,
) -> bool {
    exists|excess: K::Real, e: K::Real, x: K::Real, y: K::Real, growth: K::Real, term: K::Real|
        {
            &&& #[trigger] is_ati_exponent(k, nu, decay, j, excess, e, false)
            &&& call_ensures(K::ati_argument, (&k, gamma, excess), x)
            &&& #[trigger] is_dawson(k, x, y)
            &&& call_ensures(K::exponential, (&k, e), growth)
            &&& #[trigger] call_ensures(K::times, (&k, growth, y), term)
            &&& call_ensures(K::plus, (&k, before, term), after)
        }
}

/// Excess and exponent of photon order `j`; `under` says whether it underflows.
pub open spec fn is_ati_exponent<K: Kinetics>(
    k: K,
    nu: K::Real,
    decay: K::Real,
    j: int,
    excess: K::Real,
    e: K::Real,
    under: bool,
) -> bool {
    &&& call_ensures(K::ati_excess, (&k, nu, j as usize), excess)
    &&& call_ensures(K::ati_exponent, (&k, decay, excess), e)
    &&& call_ensures(K::is_underflow, (&k, e), under)
}

/// `run[j]` is the sum over the first `j` photon orders.
pub open spec fn is_ati_run<K: Kinetics>(
    k: K,
    gamma: K::Real,
    nu: K::Real,
    decay: K::Real,
    run: Seq<K::Real>,
) -> bool {
    &&& run.len() > 0
    &&& call_ensures(K::zero, (&k,), run[0])
    &&& forall|j: int| 0 <= j < run.len() - 1 ==> #[trigger] is_ati_leg(k, gamma, nu, decay, run, j)
}

pub open spec fn is_ati_leg<K: Kinetics>(
    k: K,
    gamma: K::Real,
    nu: K::Real,
    decay: K::Real,
    run: Seq<K::Real>,
    j: int,
) -> bool {
    is_ati_term(k, gamma, nu, decay, j, run[j], run[j + 1])
}

/// The sum stops after these orders: all of them, or the next one underflows.
pub open spec fn is_ati_over<K: Kinetics>(
    k: K,
    nu: K::Real,
    decay: K::Real,
    terms: usize,
    run: Seq<K::Real>,
) -> bool {
    let done = run.len() - 1;
    ||| done == terms
    ||| done < terms && exists|excess: K::Real, e: K::Real| #[trigger]
        is_ati_exponent(k, nu, decay, done, excess, e, true)
}

/// What [`ppt_ati_sum`] may return.
pub open spec fn is_ati_sum<K: Kinetics>(
    k: K,
    gamma: K::Real,
    nu: K::Real,
    terms: usize,
    a0: K::Real,
) -> bool {
    exists|decay: K::Real, run: Seq<K::Real>|
        {
            &&& call_ensures(K::ati_decay, (&k, gamma), decay)
            &&& #[trigger] is_ati_run(k, gamma, nu, decay, run)
            &&& is_ati_over(k, nu, decay, terms, run)
            &&& call_ensures(K::ati_scale, (&k, gamma, run.last()), a0)
        }
}

/// Sum over photon orders from the threshold `nu` on.
pub fn ppt_ati_sum<K: Kinetics>(k: &K, gamma: K::Real, nu: K::Real, terms: usize) -> (a0: K::Real)
    ensures
        is_ati_sum(*k, gamma, nu, terms, a0),
{
    let decay: K::Real = k.ati_decay(gamma);
    let mut sum: K::Real = k.zero();
    let ghost mut run: Seq<K::Real> = seq![sum];
    let mut j: usize = 0;
    while j < terms
        invariant_except_break
            j <= terms,
            run.len() == j + 1,
            run.last() == sum,
            is_ati_run(*k, gamma, nu, decay, run),
        ensures
            run.last() == sum,
            is_ati_run(*k, gamma, nu, decay, run),
            is_ati_over(*k, nu, decay, terms, run),
        decreases terms - j,
    {
        let excess: K::Real = k.ati_excess(nu, j);
        let e: K::Real = k.ati_exponent(decay, excess);
        let under: bool = k.is_underflow(e);
        proof {
            assert(is_ati_exponent(*k, nu, decay, j as int, excess, e, under));
        }
        if under {
            break;
        }
        let x: K::Real = k.ati_argument(gamma, excess);
        let y: K::Real = dawson(k, x);
        let growth: K::Real = k.exponential(e);
        let term: K::Real = k.times(growth, y);
        let next: K::Real = k.plus(sum, term);
        proof {
            assert(is_ati_term(*k, gamma, nu, decay, j as int, sum, next));
            let run2 = run.push(next);
            assert forall|i: int| 0 <= i < run2.len() - 1 implies #[trigger] is_ati_leg(
                *k,
                gamma,
                nu,
                decay,
                run2,
                i,
            ) by {
                if i < run.len() - 1 {
                    assert(is_ati_leg(*k, gamma, nu, decay, run, i));
                }
            }
            run = run2;
        }
        sum = next;
        j = j + 1;
    }
    k.ati_scale(gamma, sum)
}

/// `a0` is the weight of the photon orders: one in the tunnelling limit, the
/// sum otherwise.
pub open spec fn is_order_weight<K: Kinetics>(
    k: K,
    omega: K::Real,
    u_ion: K::Real,
    gamma: K::Real,
    a0: K::Real,
) -> bool {
    ||| call_ensures(K::is_tunnelling, (&k, gamma), true) && call_ensures(K::one, (&k,), a0)
    ||| call_ensures(K::is_tunnelling, (&k, gamma), false) && exists|nu: K::Real, terms: usize|
        {
            &&& call_ensures(K::ppt_threshold, (&k, u_ion, omega, gamma), nu)
            &&& is_ati_terms(k, gamma, terms)
            &&& #[trigger] is_ati_sum(k, gamma, nu, terms, a0)
        }
}

/// The rate for a usable adiabaticity parameter and its weight.
pub open spec fn is_ppt_weighed<K: Kinetics>(
    k: K,
    intensity: K::Real,
    omega: K::Real,
    u_ion: K::Real,
    z_eff: K::Real,
    gamma: K::Real,
    a0: K::Real,
    rate: K::Real,
) -> bool {
    let none = call_ensures(K::zero, (&k,), rate);
    &&& call_ensures(K::is_valid, (&k, gamma), true)
    &&& is_order_weight(k, omega, u_ion, gamma, a0)
    &&& exists|zero: K::Real| #[trigger]
        call_ensures(K::zero, (&k,), zero) && {
            ||| call_ensures(K::is_at_most, (&k, a0, zero), true) && none
            ||| call_ensures(K::is_at_most, (&k, a0, zero), false) && is_ppt_finished(
                k,
                intensity,
                omega,
                u_ion,
                z_eff,
                gamma,
                a0,
                rate,
            )
        }
}

/// The logarithms of the gamma function at the effective quantum number and one
/// above it.
pub open spec fn are_coulomb_gammas<K: Kinetics>(
    k: K,
    u_ion: K::Real,
    z_eff: K::Real,
    ln_gammas: (K::Real, K::Real),
) -> bool {
    exists|series: K::Series, n: K::Real, one: K::Real, above: K::Real|
        {
            &&& #[trigger] call_ensures(K::series, (&k,), series)
            &&& #[trigger] call_ensures(K::effective_number, (&k, u_ion, z_eff), n)
            &&& #[trigger] call_ensures(K::one, (&k,), one)
            &&& #[trigger] call_ensures(K::plus, (&k, n, one), above)
            &&& is_ln_gamma(series, n, ln_gammas.0)
            &&& is_ln_gamma(series, above, ln_gammas.1)
        }
}

fn coulomb_gammas<K: Kinetics>(k: &K, u_ion: K::Real, z_eff: K::Real) -> (ln_gammas: (
    K::Real,
    K::Real,
))
    ensures
        are_coulomb_gammas(*k, u_ion, z_eff, ln_gammas),
{
    let series: K::Series = k.series();
    let n: K::Real = k.effective_number(u_ion, z_eff);
    let one: K::Real = k.one();
    let above: K::Real = k.plus(n, one);
    (ln_gamma(&series, n), ln_gamma(&series, above))
}

/// The rate from a positive weight of the photon orders.
pub open spec fn is_ppt_finished<K: Kinetics>(
    k: K,
    intensity: K::Real,
    omega: K::Real,
    u_ion: K::Real,
    z_eff: K::Real,
    gamma: K::Real,
    a0: K::Real,
    rate: K::Real,
) -> bool {
    exists|x: K::Real, ln_gammas: (K::Real, K::Real), logarithm: K::Real|
        {
            &&& #[trigger] is_tunnel_exponent(k, gamma, x)
            &&& are_coulomb_gammas(k, u_ion, z_eff, ln_gammas)
            &&& #[trigger] call_ensures(
                K::ppt_logarithm,
                (&k, intensity, omega, u_ion, z_eff, a0, x, ln_gammas),
                logarithm,
            )
            &&& {
                ||| call_ensures(K::is_nan, (&k, logarithm), true) && call_ensures(
                    K::zero,
                    (&k,),
                    rate,
                )
                ||| call_ensures(K::is_nan, (&k, logarithm), false) && call_ensures(
                    K::ppt_law,
                    (&k, logarithm),
                    rate,
                )
            }
        }
}

/// All four arguments of a rate are positive, or one is not.
pub open spec fn are_positive<K: Kinetics>(
    k: K,
    a: K::Real,
    b: K::Real,
    c: K::Real,
    d: K::Real,
    all: bool,
) -> bool {
    if all {
        &&& call_ensures(K::is_positive, (&k, a), true)
        &&& call_ensures(K::is_positive, (&k, b), true)
        &&& call_ensures(K::is_positive, (&k, c), true)
        &&& call_ensures(K::is_positive, (&k, d), true)
    } else {
        ||| call_ensures(K::is_positive, (&k, a), false)
        ||| call_ensures(K::is_positive, (&k, b), false)
        ||| call_ensures(K::is_positive, (&k, c), false)
        ||| call_ensures(K::is_positive, (&k, d), false)
    }
}

/// What [`ppt_rate`] may return.
pub open spec fn is_ppt_rate<K: Kinetics>(
    k: K,
    intensity: K::Real,
    omega: K::Real,
    u_ion: K::Real,
    z_eff: K::Real,
    rate: K::Real,
) -> bool {
    let none = call_ensures(K::zero, (&k,), rate);
    ||| are_positive(k, intensity, omega, u_ion, z_eff, false) && none
    ||| are_positive(k, intensity, omega, u_ion, z_eff, true) && exists|gamma: K::Real|
        {
            &&& #[trigger] call_ensures(K::ppt_gamma, (&k, intensity, omega, u_ion), gamma)
            &&& {
                ||| call_ensures(K::is_valid, (&k, gamma), false) && none
                ||| exists|a0: K::Real| #[trigger]
                    is_ppt_weighed(k, intensity, omega, u_ion, z_eff, gamma, a0, rate)
            }
        }
}

/// Field-ionization rate of a quasi-classical bound electron, all photon orders
/// summed.
pub fn ppt_rate<K: Kinetics>(
    k: &K,
    intensity: K::Real,
    omega: K::Real,
    u_ion: K::Real,
    z_eff: K::Real,
) -> (rate: K::Real)
    ensures
        is_ppt_rate(*k, intensity, omega, u_ion, z_eff, rate),
{
    if !(k.is_positive(intensity) && k.is_positive(omega) && k.is_positive(u_ion) && k.is_positive(
        z_eff,
    )) {
        return k.zero();
    }
    let gamma: K::Real = k.ppt_gamma(intensity, omega, u_ion);
    if !k.is_valid(gamma) {
        return k.zero();
    }
    let a0: K::Real = if k.is_tunnelling(gamma) {
        k.one()
    } else {
        let nu: K::Real = k.ppt_threshold(u_ion, omega, gamma);
        let terms: usize = ppt_ati_terms(k, gamma);
        let a0: K::Real = ppt_ati_sum(k, gamma, nu, terms);
        proof {
            assert(is_ati_sum(*k, gamma, nu, terms, a0));
        }
        a0
    };
    proof {
        assert(is_order_weight(*k, omega, u_ion, gamma, a0));
    }
    let zero: K::Real = k.zero();
    if k.is_at_most(a0, zero) {
        let rate: K::Real = k.zero();
        proof {
            assert(is_ppt_weighed(*k, intensity, omega, u_ion, z_eff, gamma, a0, rate));
        }
        return rate;
    }
    let x: K::Real = keldysh_tunnel_exponent(k, gamma);
    let ln_gammas: (K::Real, K::Real) = coulomb_gammas(k, u_ion, z_eff);
    let logarithm: K::Real = k.ppt_logarithm(
        intensity,
        omega,
        u_ion,
        z_eff,
        a0,
        x,
        ln_gammas,
    );
    let rate: K::Real = if k.is_nan(logarithm) {
        k.zero()
    } else {
        k.ppt_law(logarithm)
    };
    proof {
        assert(is_ppt_finished(*k, intensity, omega, u_ion, z_eff, gamma, a0, rate));
        assert(is_ppt_weighed(*k, intensity, omega, u_ion, z_eff, gamma, a0, rate));
    }
    rate
}

impl<R: Copy> MonatomicGas<R> {
    pub fn name(&self) -> (s: &'static str)
        ensures
            s == self.name,
    {
        self.name
    }

    pub fn ionization_energy(&self) -> (u: R)
        ensures
            u == self.u_ion,
    {
        self.u_ion
    }

    pub fn elastic_loss_fraction(&self) -> (d: R)
        ensures
            d == self.delta_elastic,
    {
        self.delta_elastic
    }

    pub fn excitation_energy(&self) -> (u: R)
        ensures
            u == self.u_excite,
    {
        self.u_excite
    }

    /// Energy between the first excitation and the ionization, as a fraction of
    /// the latter.
    pub fn inelastic_climb_fraction<K: Kinetics<Real = R>>(&self, k: &K) -> (f: R)
        ensures
            call_ensures(K::inelastic_fraction, (k, *self), f),
    {
        k.inelastic_fraction(*self)
    }
}

impl<R: Copy> Gas<R> {
    /// A rare gas: elastic losses and no attachment.
    pub fn from_monatomic<K: Kinetics<Real = R>>(
        k: &K,
        gas: MonatomicGas<R>,
        k_m: R,
        d_e_ref: R,
    ) -> (g: Self)
        ensures
            g.u_ion == gas.u_ion,
            g.k_m == k_m,
            g.d_e_ref == d_e_ref,
            g.delta_eff == gas.delta_elastic,
            call_ensures(K::times, (k, gas.delta_elastic, gas.u_ion), g.mean_energy),
            call_ensures(K::zero, (k,), g.k_att_2body),
            call_ensures(K::zero, (k,), g.k_att_3body),
            call_ensures(K::zero, (k,), g.f_att),
    {
        Gas {
            u_ion: gas.u_ion,
            k_m,
            d_e_ref,
            delta_eff: gas.delta_elastic,
            mean_energy: k.times(gas.delta_elastic, gas.u_ion),
            k_att_2body: k.zero(),
            k_att_3body: k.zero(),
            f_att: k.zero(),
        }
    }

    pub fn ionization_energy(&self) -> (u: R)
        ensures
            u == self.u_ion,
    {
        self.u_ion
    }

    pub fn collision_frequency_slope(&self) -> (k_m: R)
        ensures
            k_m == self.k_m,
    {
        self.k_m
    }

    pub fn diffusion_coefficient_ref(&self) -> (d: R)
        ensures
            d == self.d_e_ref,
    {
        self.d_e_ref
    }

    pub fn inelastic_loss_fraction(&self) -> (d: R)
        ensures
            d == self.delta_eff,
    {
        self.delta_eff
    }

    pub fn mean_energy(&self) -> (e: R)
        ensures
            e == self.mean_energy,
    {
        self.mean_energy
    }

    pub fn attachment_rate<K: Kinetics<Real = R>>(&self, k: &K, n_neutral: R) -> (nu: R)
        ensures
            call_ensures(K::attachment, (k, *self, n_neutral), nu),
    {
        k.attachment(*self, n_neutral)
    }

    pub fn kinetic_diffusion_coefficient<K: Kinetics<Real = R>>(
        &self,
        k: &K,
        pressure: R,
        energy: R,
    ) -> (d: R)
        ensures
            call_ensures(K::kinetic_diffusion, (k, *self, pressure, energy), d),
    {
        k.kinetic_diffusion(*self, pressure, energy)
    }

    pub fn mean_speed<K: Kinetics<Real = R>>(&self, k: &K) -> (v: R)
        ensures
            call_ensures(K::mean_speed, (k, *self), v),
    {
        k.mean_speed(*self)
    }

    pub fn diffusion_implied_energy<K: Kinetics<Real = R>>(&self, k: &K, pressure: R, d_e: R) -> (e: R)
        ensures
            call_ensures(K::implied_energy, (k, *self, pressure, d_e), e),
    {
        k.implied_energy(*self, pressure, d_e)
    }
}

impl<R: Copy> Focus<R> {
    pub fn diffusion_length(&self) -> (l: R)
        ensures
            l == self.lambda_diff,
    {
        self.lambda_diff
    }

    pub fn mean_chord(&self) -> (l: R)
        ensures
            l == self.mean_chord,
    {
        self.mean_chord
    }

    pub fn volume(&self) -> (v: R)
        ensures
            v == self.volume,
    {
        self.volume
    }
}

/// Whether a focal region is usable: all three measures are, or one is not.
pub open spec fn is_usable_focus<K: Kinetics>(k: K, focus: Focus<K::Real>, usable: bool) -> bool {
    if usable {
        &&& call_ensures(K::is_valid, (&k, focus.lambda_diff), true)
        &&& call_ensures(K::is_valid, (&k, focus.mean_chord), true)
        &&& call_ensures(K::is_valid, (&k, focus.volume), true)
    } else {
        ||| call_ensures(K::is_valid, (&k, focus.lambda_diff), false)
        ||| call_ensures(K::is_valid, (&k, focus.mean_chord), false)
        ||| call_ensures(K::is_valid, (&k, focus.volume), false)
    }
}

/// What a breakdown model is, mathematically.
pub struct Model<K: Kinetics> {
    pub kinetics: K,
    pub omega: K::Real,
    pub gas: Gas<K::Real>,
    pub cascade: CascadeModel,
    /// Half-width of the pulse window, in pulse widths.
    pub window: K::Real,
    pub focus: Focus<K::Real>,
    /// The measured multiphoton rate and the intensity that it refers to.
    pub mpi_rate: K::Real,
    pub mpi_intensity: K::Real,
    pub photons: i32,
    pub prefactor: K::Real,
    pub charge: K::Real,
    /// Electron density that counts as breakdown.
    pub criterion: K::Real,
    pub n_over_p: K::Real,
    pub seed: Option<K::Real>,
}

impl<K: Kinetics> Model<K> {
    /// A parameter is at nothing.
    pub open spec fn is_off(self, x: K::Real) -> bool {
        call_ensures(K::zero, (&self.kinetics,), x)
    }

    /// Of the three laws of field ionization, two at least are off.
    pub open spec fn exclusive(self) -> bool {
        ||| self.is_off(self.charge) && self.is_off(self.prefactor)
        ||| self.is_off(self.charge) && self.is_off(self.mpi_rate)
        ||| self.is_off(self.prefactor) && self.is_off(self.mpi_rate)
    }

    /// `n` is the neutral density at a pressure.
    pub open spec fn is_neutral(self, pressure: K::Real, n: K::Real) -> bool {
        call_ensures(K::times, (&self.kinetics, self.n_over_p, pressure), n)
    }

    /// `d` is the electron density that the ambient ionization sustains against
    /// attachment, nothing where nothing attaches.
    pub open spec fn is_background(self, pressure: K::Real, d: K::Real) -> bool {
        exists|n: K::Real, nu: K::Real| #[trigger]
            self.is_attaching(pressure, n, nu) && self.is_sustained(pressure, nu, d)
    }

    pub open spec fn is_attaching(self, pressure: K::Real, n: K::Real, nu: K::Real) -> bool {
        &&& self.is_neutral(pressure, n)
        &&& call_ensures(K::attachment, (&self.kinetics, self.gas, n), nu)
    }

    pub open spec fn is_sustained(self, pressure: K::Real, nu: K::Real, d: K::Real) -> bool {
        exists|zero: K::Real|
            {
                &&& #[trigger] call_ensures(K::zero, (&self.kinetics,), zero)
                &&& {
                    ||| call_ensures(K::is_at_most, (&self.kinetics, nu, zero), true)
                        && self.is_off(d)
                    ||| call_ensures(K::is_at_most, (&self.kinetics, nu, zero), false)
                        && call_ensures(K::ambient_density, (&self.kinetics, pressure, nu), d)
                }
            }
    }

    /// `d` is the density that a pulse starts from.
    pub open spec fn is_seed(self, pressure: K::Real, d: K::Real) -> bool {
        match self.seed {
            Some(s) => d == s,
            None => self.is_background(pressure, d),
        }
    }

    /// `e` is the energy at which heating balances the losses.
    pub open spec fn is_equilibrium(self, intensity: K::Real, pressure: K::Real, e: K::Real) -> bool {
        exists|h: K::Real, nu: K::Real|
            {
                &&& #[trigger] call_ensures(
                    K::heating,
                    (&self.kinetics, self.omega, self.gas, intensity, pressure),
                    h,
                )
                &&& #[trigger] call_ensures(K::relaxation, (&self.kinetics, self.gas, pressure), nu)
                &&& call_ensures(K::ratio, (&self.kinetics, h, nu), e)
            }
    }

    /// `nu` is the net heating at a fixed mean energy, over the ionization
    /// energy.
    pub open spec fn is_fixed_energy_rate(
        self,
        intensity: K::Real,
        pressure: K::Real,
        nu: K::Real,
    ) -> bool {
        exists|h: K::Real, l: K::Real, net: K::Real, zero: K::Real, gain: K::Real|
            {
                &&& #[trigger] call_ensures(
                    K::heating,
                    (&self.kinetics, self.omega, self.gas, intensity, pressure),
                    h,
                )
                &&& call_ensures(K::inelastic_loss, (&self.kinetics, self.gas, pressure), l)
                &&& #[trigger] call_ensures(K::minus, (&self.kinetics, h, l), net)
                &&& call_ensures(K::zero, (&self.kinetics,), zero)
                &&& #[trigger] call_ensures(K::larger, (&self.kinetics, net, zero), gain)
                &&& call_ensures(K::ratio, (&self.kinetics, gain, self.gas.u_ion), nu)
            }
    }

    /// `nu` is the rate of an average electron's climb, nothing where it does
    /// not reach the ionization energy.
    pub open spec fn is_climb_rate(self, intensity: K::Real, pressure: K::Real, nu: K::Real) -> bool {
        exists|e: K::Real|
            {
                &&& #[trigger] self.is_equilibrium(intensity, pressure, e)
                &&& {
                    ||| call_ensures(K::is_at_most, (&self.kinetics, e, self.gas.u_ion), true)
                        && self.is_off(nu)
                    ||| call_ensures(K::is_at_most, (&self.kinetics, e, self.gas.u_ion), false)
                        && self.is_climbed(pressure, e, nu)
                }
            }
    }

    pub open spec fn is_climbed(self, pressure: K::Real, e: K::Real, nu: K::Real) -> bool {
        exists|relax: K::Real|
            #[trigger] call_ensures(K::relaxation, (&self.kinetics, self.gas, pressure), relax)
                && call_ensures(K::climb_rate, (&self.kinetics, relax, e, self.gas.u_ion), nu)
    }

    /// `nu` is the first-passage rate of the distribution.
    pub open spec fn is_resolved_rate(
        self,
        intensity: K::Real,
        pressure: K::Real,
        nu: K::Real,
    ) -> bool {
        exists|relax: K::Real, e: K::Real, photon: K::Real|
            {
                &&& #[trigger] call_ensures(
                    K::relaxation,
                    (&self.kinetics, self.gas, pressure),
                    relax,
                )
                &&& #[trigger] self.is_equilibrium(intensity, pressure, e)
                &&& #[trigger] call_ensures(
                    K::photon_energy,
                    (&self.kinetics, self.omega),
                    photon,
                )
                &&& is_passage_rate(self.kinetics, relax, e, self.gas.u_ion, photon, nu)
            }
    }

    /// `nu` is the cascade rate.
    pub open spec fn is_cascade(self, intensity: K::Real, pressure: K::Real, nu: K::Real) -> bool {
        match self.cascade {
            CascadeModel::FixedMeanEnergy => self.is_fixed_energy_rate(intensity, pressure, nu),
            CascadeModel::SelfConsistentClimb => self.is_climb_rate(intensity, pressure, nu),
            CascadeModel::DistributionResolved => self.is_resolved_rate(intensity, pressure, nu),
        }
    }

    /// `nu` is the rate at which electrons leave the focus.
    pub open spec fn is_escape(self, pressure: K::Real, nu: K::Real) -> bool {
        exists|d: K::Real, v: K::Real|
            {
                &&& #[trigger] call_ensures(K::diffusion, (&self.kinetics, self.gas, pressure), d)
                &&& #[trigger] call_ensures(K::mean_speed, (&self.kinetics, self.gas), v)
                &&& call_ensures(K::escape, (&self.kinetics, self.gas, self.focus, d, v), nu)
            }
    }

    /// `kn` is the mean free path against the size of the focus.
    pub open spec fn is_knudsen(self, pressure: K::Real, kn: K::Real) -> bool {
        exists|v: K::Real| #[trigger]
            call_ensures(K::mean_speed, (&self.kinetics, self.gas), v) && call_ensures(
                K::knudsen,
                (&self.kinetics, self.gas, self.focus, v, pressure),
                kn,
            )
    }

    /// `nu` is the rate of attachment and escape together.
    pub open spec fn is_loss(self, pressure: K::Real, nu: K::Real) -> bool {
        exists|n: K::Real, att: K::Real, esc: K::Real|
            {
                &&& #[trigger] self.is_attaching(pressure, n, att)
                &&& #[trigger] self.is_escape(pressure, esc)
                &&& call_ensures(K::plus, (&self.kinetics, att, esc), nu)
            }
    }

    /// `s` is the rate of field ionization per volume: the first law that is on,
    /// in this order.
    pub open spec fn is_mpi(self, intensity: K::Real, pressure: K::Real, s: K::Real) -> bool {
        let k = self.kinetics;
        let charged = call_ensures(K::is_positive, (&k, self.charge), true);
        let prefixed = call_ensures(K::is_positive, (&k, self.charge), false) && call_ensures(
            K::is_positive,
            (&k, self.prefactor),
            true,
        );
        let neither = call_ensures(K::is_positive, (&k, self.charge), false) && call_ensures(
            K::is_positive,
            (&k, self.prefactor),
            false,
        );
        ||| charged && self.is_charged_source(intensity, pressure, s)
        ||| prefixed && self.is_prefixed_source(intensity, pressure, s)
        ||| neither && call_ensures(K::is_zero, (&k, self.mpi_rate), true) && self.is_off(s)
        ||| neither && call_ensures(K::is_zero, (&k, self.mpi_rate), false)
            && self.is_reference_source(intensity, pressure, s)
    }

    pub open spec fn is_charged_source(
        self,
        intensity: K::Real,
        pressure: K::Real,
        s: K::Real,
    ) -> bool {
        exists|n: K::Real, w: K::Real|
            {
                &&& #[trigger] self.is_neutral(pressure, n)
                &&& #[trigger] is_ppt_rate(
                    self.kinetics,
                    intensity,
                    self.omega,
                    self.gas.u_ion,
                    self.charge,
                    w,
                )
                &&& call_ensures(K::times, (&self.kinetics, n, w), s)
            }
    }

    pub open spec fn is_prefixed_source(
        self,
        intensity: K::Real,
        pressure: K::Real,
        s: K::Real,
    ) -> bool {
        exists|n: K::Real, w: K::Real|
            {
                &&& #[trigger] self.is_neutral(pressure, n)
                &&& #[trigger] is_keldysh_rate(
                    self.kinetics,
                    intensity,
                    self.omega,
                    self.gas.u_ion,
                    self.prefactor,
                    w,
                )
                &&& call_ensures(K::times, (&self.kinetics, n, w), s)
            }
    }

    pub open spec fn is_reference_source(
        self,
        intensity: K::Real,
        pressure: K::Real,
        s: K::Real,
    ) -> bool {
        exists|n: K::Real, w: K::Real|
            {
                &&& #[trigger] self.is_neutral(pressure, n)
                &&& #[trigger] call_ensures(
                    K::reference_law,
                    (&self.kinetics, self.mpi_rate, intensity, self.mpi_intensity, self.photons),
                    w,
                )
                &&& call_ensures(K::times, (&self.kinetics, n, w), s)
            }
    }

    /// The rates that act on the electrons at an instant: cascade, net growth,
    /// field ionization, and the depletion that the neutrals impose.
    pub open spec fn are_rates(
        self,
        intensity: K::Real,
        pressure: K::Real,
        rates: Rates<K::Real>,
    ) -> bool {
        let k = self.kinetics;
        &&& self.is_cascade(intensity, pressure, rates.cascade)
        &&& self.is_loss(pressure, rates.loss)
        &&& call_ensures(K::minus, (&k, rates.cascade, rates.loss), rates.growth)
        &&& self.is_mpi(intensity, pressure, rates.source)
        &&& self.is_neutral(pressure, rates.neutral)
        &&& {
            ||| call_ensures(K::is_positive, (&k, rates.neutral), true) && call_ensures(
                K::ratio,
                (&k, rates.cascade, rates.neutral),
                rates.depletion,
            )
            ||| call_ensures(K::is_positive, (&k, rates.neutral), false) && self.is_off(
                rates.depletion,
            )
        }
    }

    /// `next` follows `n_e` after `dt` under some rates.
    pub open spec fn is_advanced_under(
        self,
        rates: Rates<K::Real>,
        n_e: K::Real,
        dt: K::Real,
        next: K::Real,
    ) -> bool {
        let k = self.kinetics;
        ||| call_ensures(K::is_zero, (&k, rates.source), true) && self.is_grown(
            rates,
            n_e,
            dt,
            next,
        )
        ||| call_ensures(K::is_zero, (&k, rates.source), false) && self.is_fed(
            rates,
            n_e,
            dt,
            next,
        )
    }

    /// `next` is the logistic growth of `n_e`, nothing from nothing.
    pub open spec fn is_grown(
        self,
        rates: Rates<K::Real>,
        n_e: K::Real,
        dt: K::Real,
        next: K::Real,
    ) -> bool {
        let k = self.kinetics;
        exists|zero: K::Real|
            {
                &&& #[trigger] call_ensures(K::zero, (&k,), zero)
                &&& {
                    ||| call_ensures(K::is_at_most, (&k, n_e, zero), true) && self.is_off(next)
                    ||| call_ensures(K::is_at_most, (&k, n_e, zero), false)
                        && exists|x: K::Real, neg: K::Real, denom: K::Real| #[trigger]
                        self.is_denominator(rates, n_e, dt, x, neg, denom) && self.is_quotient(
                            n_e,
                            x,
                            denom,
                            next,
                        )
                }
            }
    }

    /// Denominator of the logistic growth over `dt`, and the exponents of it.
    pub open spec fn is_denominator(
        self,
        rates: Rates<K::Real>,
        n_e: K::Real,
        dt: K::Real,
        x: K::Real,
        neg: K::Real,
        denom: K::Real,
    ) -> bool {
        let k = self.kinetics;
        &&& call_ensures(K::times, (&k, rates.growth, dt), x)
        &&& exists|minus: K::Real| #[trigger]
            call_ensures(K::negate, (&k, x), minus) && call_ensures(K::capped, (&k, minus), neg)
        &&& exists|decay: K::Real, load: K::Real, factor: K::Real, drag: K::Real|
            {
                &&& #[trigger] call_ensures(K::exponential, (&k, neg), decay)
                &&& call_ensures(K::times, (&k, rates.depletion, n_e), load)
                &&& self.is_span(x, neg, rates.growth, dt, factor)
                &&& #[trigger] call_ensures(K::times, (&k, load, factor), drag)
                &&& call_ensures(K::plus, (&k, decay, drag), denom)
            }
    }

    /// The decay integrated over `dt`: `dt` itself where the exponent is
    /// negligible.
    pub open spec fn is_span(
        self,
        x: K::Real,
        neg: K::Real,
        growth: K::Real,
        dt: K::Real,
        factor: K::Real,
    ) -> bool {
        let k = self.kinetics;
        ||| call_ensures(K::is_negligible, (&k, x), true) && factor == dt
        ||| call_ensures(K::is_negligible, (&k, x), false) && exists|gain: K::Real, loss: K::Real|
            {
                &&& #[trigger] call_ensures(K::exponential_gain, (&k, neg), gain)
                &&& #[trigger] call_ensures(K::negate, (&k, gain), loss)
                &&& call_ensures(K::ratio, (&k, loss, growth), factor)
            }
    }

    /// `next` is `n_e` over a valid denominator, the unlimited growth otherwise.
    pub open spec fn is_quotient(
        self,
        n_e: K::Real,
        x: K::Real,
        denom: K::Real,
        next: K::Real,
    ) -> bool {
        let k = self.kinetics;
        ||| call_ensures(K::is_valid, (&k, denom), true) && call_ensures(
            K::ratio,
            (&k, n_e, denom),
            next,
        )
        ||| call_ensures(K::is_valid, (&k, denom), false) && exists|e: K::Real, growth: K::Real|
            {
                &&& #[trigger] call_ensures(K::capped, (&k, x), e)
                &&& #[trigger] call_ensures(K::exponential, (&k, e), growth)
                &&& call_ensures(K::times, (&k, n_e, growth), next)
            }
    }

    /// `next` is `n_e` grown and fed by field ionization, no more than the
    /// neutrals can give.
    pub open spec fn is_fed(
        self,
        rates: Rates<K::Real>,
        n_e: K::Real,
        dt: K::Real,
        next: K::Real,
    ) -> bool {
        let k = self.kinetics;
        exists|load: K::Real, rate: K::Real, x: K::Real, d: K::Real, free: K::Real|
            {
                &&& call_ensures(K::times, (&k, rates.depletion, n_e), load)
                &&& #[trigger] call_ensures(K::minus, (&k, rates.growth, load), rate)
                &&& #[trigger] call_ensures(K::times, (&k, rate, dt), x)
                &&& call_ensures(K::clamped, (&k, x), d)
                &&& #[trigger] self.is_unlimited(rates.source, n_e, dt, rate, d, free)
                &&& {
                    ||| call_ensures(K::is_positive, (&k, rates.neutral), true) && call_ensures(
                        K::smaller,
                        (&k, free, rates.neutral),
                        next,
                    )
                    ||| call_ensures(K::is_positive, (&k, rates.neutral), false) && next == free
                }
            }
    }

    /// `free` is `n_e` grown by the exponent `d` plus the source over `dt`.
    pub open spec fn is_unlimited(
        self,
        source: K::Real,
        n_e: K::Real,
        dt: K::Real,
        rate: K::Real,
        d: K::Real,
        free: K::Real,
    ) -> bool {
        let k = self.kinetics;
        exists|span: K::Real, growth: K::Real, grown: K::Real, fed: K::Real|
            {
                &&& #[trigger] self.is_feeding(d, rate, dt, span)
                &&& #[trigger] call_ensures(K::exponential, (&k, d), growth)
                &&& #[trigger] call_ensures(K::times, (&k, n_e, growth), grown)
                &&& #[trigger] call_ensures(K::times, (&k, source, span), fed)
                &&& call_ensures(K::plus, (&k, grown, fed), free)
            }
    }

    /// The growth integrated over `dt`: `dt` itself where the exponent is
    /// negligible.
    pub open spec fn is_feeding(self, d: K::Real, rate: K::Real, dt: K::Real, span: K::Real) -> bool {
        let k = self.kinetics;
        ||| call_ensures(K::is_negligible, (&k, d), true) && span == dt
        ||| call_ensures(K::is_negligible, (&k, d), false) && exists|gain: K::Real| #[trigger]
            call_ensures(K::exponential_gain, (&k, d), gain) && call_ensures(
                K::ratio,
                (&k, gain, rate),
                span,
            )
    }

    /// `next` follows `n_e` after `dt` at an intensity and a pressure.
    pub open spec fn is_advanced(
        self,
        n_e: K::Real,
        intensity: K::Real,
        pressure: K::Real,
        dt: K::Real,
        next: K::Real,
    ) -> bool {
        exists|rates: Rates<K::Real>| #[trigger]
            self.are_rates(intensity, pressure, rates) && self.is_advanced_under(
                rates,
                n_e,
                dt,
                next,
            )
    }

    /// The electrons after a step of a pulse: no less than an explicit seed.
    pub open spec fn is_pulse_step(
        self,
        p: Pulse<K::Real>,
        step: int,
        n_e: K::Real,
        next: K::Real,
    ) -> bool {
        let k = self.kinetics;
        exists|intensity: K::Real, free: K::Real|
            {
                &&& #[trigger] call_ensures(
                    K::pulse_intensity,
                    (&k, p.i_peak, p.fwhm, p.half, p.dt, step as usize),
                    intensity,
                )
                &&& #[trigger] self.is_advanced(n_e, intensity, p.pressure, p.dt, free)
                &&& match self.seed {
                    Some(floor) => call_ensures(K::larger, (&k, free, floor), next),
                    None => next == free,
                }
            }
    }

    /// `after` is the larger of `before` and a density.
    pub open spec fn is_peak_kept(self, n_e: K::Real, before: K::Real, after: K::Real) -> bool {
        ||| call_ensures(K::exceeds, (&self.kinetics, n_e, before), true) && after == n_e
        ||| call_ensures(K::exceeds, (&self.kinetics, n_e, before), false) && after == before
    }

    /// Step `i` of a pulse: the density and the peak so far.
    pub open spec fn is_pulse_leg(
        self,
        p: Pulse<K::Real>,
        densities: Seq<K::Real>,
        peaks: Seq<K::Real>,
        i: int,
    ) -> bool {
        &&& self.is_pulse_step(p, i, densities[i], densities[i + 1])
        &&& self.is_peak_kept(densities[i + 1], peaks[i], peaks[i + 1])
    }

    /// The densities of a pulse and the peaks so far, step by step from the seed.
    pub open spec fn is_pulse_run(
        self,
        p: Pulse<K::Real>,
        densities: Seq<K::Real>,
        peaks: Seq<K::Real>,
    ) -> bool {
        &&& 0 < densities.len() == peaks.len()
        &&& self.is_seed(p.pressure, densities[0])
        &&& peaks[0] == densities[0]
        &&& forall|i: int|
            0 <= i < densities.len() - 1 ==> #[trigger] self.is_pulse_leg(p, densities, peaks, i)
    }

    /// A pulse of `n_steps` steps.
    pub open spec fn is_pulse(
        self,
        i_peak: K::Real,
        fwhm: K::Real,
        pressure: K::Real,
        n_steps: usize,
        p: Pulse<K::Real>,
    ) -> bool {
        &&& p.i_peak == i_peak
        &&& p.fwhm == fwhm
        &&& p.pressure == pressure
        &&& call_ensures(K::half_window, (&self.kinetics, self.window, fwhm), p.half)
        &&& call_ensures(K::pulse_step, (&self.kinetics, p.half, n_steps), p.dt)
    }

    /// `peak` is the largest density that a pulse reaches.
    pub open spec fn is_peak(
        self,
        i_peak: K::Real,
        fwhm: K::Real,
        pressure: K::Real,
        n_steps: usize,
        peak: K::Real,
    ) -> bool {
        exists|p: Pulse<K::Real>, densities: Seq<K::Real>, peaks: Seq<K::Real>|
            {
                &&& self.is_pulse(i_peak, fwhm, pressure, n_steps, p)
                &&& #[trigger] self.is_pulse_run(p, densities, peaks)
                &&& densities.len() == n_steps + 1
                &&& peaks.last() == peak
            }
    }

    /// Whether a pulse breaks the gas down.
    pub open spec fn is_breakdown(
        self,
        i_peak: K::Real,
        fwhm: K::Real,
        pressure: K::Real,
        n_steps: usize,
        b: bool,
    ) -> bool {
        exists|peak: K::Real| #[trigger]
            self.is_peak(i_peak, fwhm, pressure, n_steps, peak) && call_ensures(
                K::reaches,
                (&self.kinetics, peak, self.criterion),
                b,
            )
    }

    /// A bracket of the threshold: no breakdown below, breakdown above.
    pub open spec fn is_bracket(
        self,
        fwhm: K::Real,
        pressure: K::Real,
        n_steps: usize,
        bracket: (K::Real, K::Real),
    ) -> bool {
        &&& self.is_breakdown(bracket.0, fwhm, pressure, n_steps, false)
        &&& self.is_breakdown(bracket.1, fwhm, pressure, n_steps, true)
    }

    /// A halving of a bracket: the mean takes the place of the end that it
    /// agrees with.
    pub open spec fn is_halving(
        self,
        fwhm: K::Real,
        pressure: K::Real,
        n_steps: usize,
        a: (K::Real, K::Real),
        b: (K::Real, K::Real),
    ) -> bool {
        exists|mid: K::Real|
            {
                &&& #[trigger] call_ensures(K::geometric_mean, (&self.kinetics, a.0, a.1), mid)
                &&& {
                    ||| self.is_breakdown(mid, fwhm, pressure, n_steps, true) && b == (a.0, mid)
                    ||| self.is_breakdown(mid, fwhm, pressure, n_steps, false) && b == (mid, a.1)
                }
            }
    }

    pub open spec fn is_halving_at(
        self,
        fwhm: K::Real,
        pressure: K::Real,
        n_steps: usize,
        trace: Seq<(K::Real, K::Real)>,
        i: int,
    ) -> bool {
        self.is_halving(fwhm, pressure, n_steps, trace[i], trace[i + 1])
    }

    /// Whether bracket `i` was found narrow.
    pub open spec fn is_narrow_at(
        self,
        trace: Seq<(K::Real, K::Real)>,
        i: int,
        narrow: bool,
    ) -> bool {
        call_ensures(K::is_narrow, (&self.kinetics, trace[i].0, trace[i].1), narrow)
    }

    /// The brackets of a threshold search, from the whole range on, none narrow
    /// before the last.
    pub open spec fn is_search(
        self,
        fwhm: K::Real,
        pressure: K::Real,
        n_steps: usize,
        trace: Seq<(K::Real, K::Real)>,
    ) -> bool {
        &&& 0 < trace.len() <= MAX_BISECTIONS + 1
        &&& call_ensures(K::bracket_floor, (&self.kinetics,), trace[0].0)
        &&& call_ensures(K::bracket_ceiling, (&self.kinetics,), trace[0].1)
        &&& self.is_bracket(fwhm, pressure, n_steps, trace[0])
        &&& forall|i: int|
            0 <= i < trace.len() - 1 ==> #[trigger] self.is_halving_at(
                fwhm,
                pressure,
                n_steps,
                trace,
                i,
            )
        &&& forall|i: int|
            0 < i < trace.len() - 1 ==> #[trigger] self.is_narrow_at(trace, i, false)
    }

    /// What [`AirBreakdown::threshold_intensity`] may return.
    pub open spec fn is_threshold(
        self,
        fwhm: K::Real,
        pressure: K::Real,
        n_steps: usize,
        r: Result<K::Real, BreakdownError<K::Real>>,
    ) -> bool {
        let k = self.kinetics;
        let valid = call_ensures(K::is_valid, (&k, pressure), true);
        match r {
            Err(BreakdownError::BadPressure) => call_ensures(K::is_valid, (&k, pressure), false),
            Err(BreakdownError::BelowBracket { floor, pressure: at }) => {
                &&& valid
                &&& at == pressure
                &&& call_ensures(K::bracket_floor, (&k,), floor)
                &&& self.is_breakdown(floor, fwhm, pressure, n_steps, true)
            },
            Err(BreakdownError::AboveBracket { ceiling, pressure: at }) => {
                &&& valid
                &&& at == pressure
                &&& self.is_floor_judged(fwhm, pressure, n_steps, false)
                &&& call_ensures(K::bracket_ceiling, (&k,), ceiling)
                &&& self.is_breakdown(ceiling, fwhm, pressure, n_steps, false)
            },
            Err(_) => false,
            Ok(t) => valid && exists|trace: Seq<(K::Real, K::Real)>|
                {
                    &&& #[trigger] self.is_search(fwhm, pressure, n_steps, trace)
                    &&& trace.len() == MAX_BISECTIONS + 1 || (trace.len() > 1
                        && self.is_narrow_at(trace, trace.len() - 1, true))
                    &&& call_ensures(K::geometric_mean, (&k, trace.last().0, trace.last().1), t)
                },
        }
    }

    pub open spec fn is_floor_judged(
        self,
        fwhm: K::Real,
        pressure: K::Real,
        n_steps: usize,
        breaks: bool,
    ) -> bool {
        exists|lo: K::Real| #[trigger]
            call_ensures(K::bracket_floor, (&self.kinetics,), lo) && self.is_breakdown(
                lo,
                fwhm,
                pressure,
                n_steps,
                breaks,
            )
    }

    /// Point `i` of a sweep over pressures: the pressure and what the threshold
    /// search returned there.
    pub open spec fn is_sweep_point(
        self,
        p_min: K::Real,
        p_max: K::Real,
        parts: int,
        fwhm: K::Real,
        n_steps: usize,
        i: int,
        point: (K::Real, Result<K::Real, BreakdownError<K::Real>>),
    ) -> bool {
        &&& call_ensures(
            K::log_spaced,
            (&self.kinetics, p_min, p_max, i as usize, parts as usize),
            point.0,
        )
        &&& self.is_threshold(fwhm, point.0, n_steps, point.1)
    }

    /// The points of a sweep over pressures.
    pub open spec fn is_sweep(
        self,
        p_min: K::Real,
        p_max: K::Real,
        n: usize,
        fwhm: K::Real,
        n_steps: usize,
        points: Seq<(K::Real, Result<K::Real, BreakdownError<K::Real>>)>,
    ) -> bool {
        forall|i: int|
            0 <= i < points.len() ==> self.is_sweep_point(
                p_min,
                p_max,
                sweep_parts(n),
                fwhm,
                n_steps,
                i,
                #[trigger] points[i],
            )
    }
}

/// Intervals of a sweep of `n` points, one at least.
pub open spec fn sweep_parts(n: usize) -> int {
    if n > 2 {
        n - 1
    } else {
        1
    }
}

/// The points of a sweep that have a threshold, in order.
pub open spec fn kept<R>(points: Seq<(R, Result<R, BreakdownError<R>>)>) -> Seq<(R, R)>
    decreases points.len(),
{
    if points.len() == 0 {
        Seq::empty()
    } else {
        match points.last().1 {
            Ok(t) => kept(points.drop_last()).push((points.last().0, t)),
            Err(_) => kept(points.drop_last()),
        }
    }
}

/// The rates that act on the electrons at an instant.
pub struct Rates<R> {
    pub cascade: R,
    pub loss: R,
    pub growth: R,
    pub source: R,
    pub neutral: R,
    pub depletion: R,
}

/// A pulse as it is stepped.
pub struct Pulse<R> {
    pub i_peak: R,
    pub fwhm: R,
    pub pressure: R,
    pub half: R,
    pub dt: R,
}

/// Breakdown of a gas in a focal region at one wavelength.
#[derive(Debug, Clone, Copy)]
pub struct AirBreakdown<K: Kinetics> {
    kinetics: K,
    omega: K::Real,
    gas: Gas<K::Real>,
    cascade_model: CascadeModel,
    window_half_widths: K::Real,
    focus: Focus<K::Real>,
    mpi_rate_ref: K::Real,
    mpi_i_ref: K::Real,
    k_photons: i32,
    keldysh_prefactor: K::Real,
    ppt_z_eff: K::Real,
    n_bd: K::Real,
    n_over_p: K::Real,
    n_seed: Option<K::Real>,
}

impl<K: Kinetics> View for AirBreakdown<K> {
    type V = Model<K>;

    closed spec fn view(&self) -> Model<K> {
        Model {
            kinetics: self.kinetics,
            omega: self.omega,
            gas: self.gas,
            cascade: self.cascade_model,
            window: self.window_half_widths,
            focus: self.focus,
            mpi_rate: self.mpi_rate_ref,
            mpi_intensity: self.mpi_i_ref,
            photons: self.k_photons,
            prefactor: self.keldysh_prefactor,
            charge: self.ppt_z_eff,
            criterion: self.n_bd,
            n_over_p: self.n_over_p,
            seed: self.n_seed,
        }
    }
}

/// What building a model may return: the checks in order, and a model with the
/// field ionization of the default charge, the resolved cascade and no seed.
pub open spec fn is_model<K: Kinetics>(
    k: K,
    wavelength: K::Real,
    gas: Gas<K::Real>,
    focus: Focus<K::Real>,
    temperature: K::Real,
    r: Result<AirBreakdown<K>, BreakdownError<K::Real>>,
) -> bool {
    let coloured = call_ensures(K::is_valid, (&k, wavelength), true);
    let focused = coloured && is_usable_focus(k, focus, true);
    let warm = focused && call_ensures(K::is_valid, (&k, temperature), true);
    let bound = warm && call_ensures(K::is_valid, (&k, gas.u_ion), true);
    match r {
        Err(BreakdownError::BadWavelength) => call_ensures(K::is_valid, (&k, wavelength), false),
        Err(BreakdownError::BadFocus) => coloured && is_usable_focus(k, focus, false),
        Err(BreakdownError::BadTemperature) => {
            focused && call_ensures(K::is_valid, (&k, temperature), false)
        },
        Err(BreakdownError::BadIonizationEnergy) => {
            warm && call_ensures(K::is_valid, (&k, gas.u_ion), false)
        },
        Err(_) => false,
        Ok(m) => {
            &&& bound
            &&& m@.kinetics == k
            &&& call_ensures(K::angular_frequency, (&k, wavelength), m@.omega)
            &&& m@.gas == gas
            &&& m@.cascade == CascadeModel::DistributionResolved
            &&& call_ensures(K::default_window, (&k,), m@.window)
            &&& m@.focus == focus
            &&& m@.is_off(m@.mpi_rate)
            &&& call_ensures(K::one, (&k,), m@.mpi_intensity)
            &&& call_ensures(K::photon_count, (&k, gas.u_ion, m@.omega), m@.photons)
            &&& m@.is_off(m@.prefactor)
            &&& call_ensures(K::default_charge, (&k,), m@.charge)
            &&& call_ensures(K::default_criterion, (&k,), m@.criterion)
            &&& call_ensures(K::density_per_pressure, (&k, temperature), m@.n_over_p)
            &&& m@.seed is None
            &&& m@.exclusive()
        },
    }
}

impl<K: Kinetics> AirBreakdown<K> {
    /// A model of a gas at a temperature, in a focal region.
    pub fn new(
        kinetics: K,
        wavelength: K::Real,
        gas: Gas<K::Real>,
        focus: Focus<K::Real>,
        temperature: K::Real,
    ) -> (r: Result<Self, BreakdownError<K::Real>>)
        ensures
            is_model(kinetics, wavelength, gas, focus, temperature, r),
    {
        if !kinetics.is_valid(wavelength) {
            return Err(BreakdownError::BadWavelength);
        }
        if !(kinetics.is_valid(focus.lambda_diff) && kinetics.is_valid(focus.mean_chord)
            && kinetics.is_valid(focus.volume)) {
            return Err(BreakdownError::BadFocus);
        }
        if !kinetics.is_valid(temperature) {
            return Err(BreakdownError::BadTemperature);
        }
        if !kinetics.is_valid(gas.u_ion) {
            return Err(BreakdownError::BadIonizationEnergy);
        }
        let omega: K::Real = kinetics.angular_frequency(wavelength);
        let k_photons: i32 = kinetics.photon_count(gas.u_ion, omega);
        let window_half_widths: K::Real = kinetics.default_window();
        let mpi_rate_ref: K::Real = kinetics.zero();
        let mpi_i_ref: K::Real = kinetics.one();
        let keldysh_prefactor: K::Real = kinetics.zero();
        let ppt_z_eff: K::Real = kinetics.default_charge();
        let n_bd: K::Real = kinetics.default_criterion();
        let n_over_p: K::Real = kinetics.density_per_pressure(temperature);
        Ok(
            AirBreakdown {
                kinetics,
                omega,
                gas,
                cascade_model: CascadeModel::DistributionResolved,
                window_half_widths,
                focus,
                mpi_rate_ref,
                mpi_i_ref,
                k_photons,
                keldysh_prefactor,
                ppt_z_eff,
                n_bd,
                n_over_p,
                n_seed: None,
            },
        )
    }

    pub fn kinetics(&self) -> (k: &K)
        ensures
            *k == self@.kinetics,
    {
        &self.kinetics
    }

    pub fn gas(&self) -> (g: Gas<K::Real>)
        ensures
            g == self@.gas,
    {
        self.gas
    }

    pub fn focus(&self) -> (f: Focus<K::Real>)
        ensures
            f == self@.focus,
    {
        self.focus
    }

    pub fn diffusion_length(&self) -> (l: K::Real)
        ensures
            l == self@.focus.lambda_diff,
    {
        self.focus.lambda_diff
    }

    pub fn criterion_density(&self) -> (n: K::Real)
        ensures
            n == self@.criterion,
    {
        self.n_bd
    }

    /// Another inelastic loss: the fraction per collision, and the mean energy in
    /// electron volts.
    pub fn with_inelastic_loss(self, delta_eff: K::Real, mean_energy_ev: K::Real) -> (m: Self)
        ensures
            m@ == (Model { gas: m@.gas, ..self@ }),
            m@.gas == (Gas { delta_eff, mean_energy: m@.gas.mean_energy, ..self@.gas }),
            call_ensures(
                K::electron_volts,
                (&self@.kinetics, mean_energy_ev),
                m@.gas.mean_energy,
            ),
    {
        let mean_energy: K::Real = self.kinetics.electron_volts(mean_energy_ev);
        let gas: Gas<K::Real> = Gas { delta_eff, mean_energy, ..self.gas };
        AirBreakdown { gas, ..self }
    }

    /// Another diffusion coefficient at the reference pressure.
    pub fn with_diffusion_coefficient(self, d_e_ref: K::Real) -> (m: Self)
        ensures
            m@ == (Model { gas: Gas { d_e_ref, ..self@.gas }, ..self@ }),
    {
        let gas: Gas<K::Real> = Gas { d_e_ref, ..self.gas };
        AirBreakdown { gas, ..self }
    }

    /// The measured multiphoton rate in place of any other law.
    pub fn with_tt2012_mpi(self, fwhm: K::Real, pressure: K::Real) -> (m: Self)
        ensures
            m@ == (Model {
                photons: m@.photons,
                mpi_intensity: m@.mpi_intensity,
                mpi_rate: m@.mpi_rate,
                prefactor: m@.prefactor,
                charge: m@.charge,
                ..self@
            }),
            call_ensures(K::measured_photons, (&self@.kinetics,), m@.photons),
            call_ensures(K::measured_intensity, (&self@.kinetics,), m@.mpi_intensity),
            call_ensures(
                K::measured_rate,
                (&self@.kinetics, self@.criterion, self@.n_over_p, pressure, fwhm),
                m@.mpi_rate,
            ),
            m@.is_off(m@.prefactor),
            m@.is_off(m@.charge),
            m@.exclusive(),
    {
        let k_photons: i32 = self.kinetics.measured_photons();
        let mpi_i_ref: K::Real = self.kinetics.measured_intensity();
        let mpi_rate_ref: K::Real = self.kinetics.measured_rate(
            self.n_bd,
            self.n_over_p,
            pressure,
            fwhm,
        );
        let keldysh_prefactor: K::Real = self.kinetics.zero();
        let ppt_z_eff: K::Real = self.kinetics.zero();
        AirBreakdown { k_photons, mpi_i_ref, mpi_rate_ref, keldysh_prefactor, ppt_z_eff, ..self }
    }

    /// The exponential law with a given prefactor in place of any other.
    pub fn with_keldysh_mpi(self, prefactor: K::Real) -> (m: Self)
        ensures
            m@ == (Model { prefactor, mpi_rate: m@.mpi_rate, charge: m@.charge, ..self@ }),
            m@.is_off(m@.mpi_rate),
            m@.is_off(m@.charge),
            m@.exclusive(),
    {
        let mpi_rate_ref: K::Real = self.kinetics.zero();
        let ppt_z_eff: K::Real = self.kinetics.zero();
        AirBreakdown { keldysh_prefactor: prefactor, mpi_rate_ref, ppt_z_eff, ..self }
    }

    /// No field ionization at all.
    pub fn without_mpi(self) -> (m: Self)
        ensures
            m@ == (Model {
                prefactor: m@.prefactor,
                mpi_rate: m@.mpi_rate,
                charge: m@.charge,
                ..self@
            }),
            m@.is_off(m@.prefactor),
            m@.is_off(m@.mpi_rate),
            m@.is_off(m@.charge),
            m@.exclusive(),
    {
        let ppt_z_eff: K::Real = self.kinetics.zero();
        let keldysh_prefactor: K::Real = self.kinetics.zero();
        let mpi_rate_ref: K::Real = self.kinetics.zero();
        AirBreakdown { ppt_z_eff, keldysh_prefactor, mpi_rate_ref, ..self }
    }

    /// The quasi-classical law with a given charge in place of any other.
    pub fn with_ppt_mpi(self, z_eff: K::Real) -> (m: Self)
        ensures
            m@ == (Model {
                charge: z_eff,
                prefactor: m@.prefactor,
                mpi_rate: m@.mpi_rate,
                ..self@
            }),
            m@.is_off(m@.prefactor),
            m@.is_off(m@.mpi_rate),
            m@.exclusive(),
    {
        let keldysh_prefactor: K::Real = self.kinetics.zero();
        let mpi_rate_ref: K::Real = self.kinetics.zero();
        AirBreakdown { ppt_z_eff: z_eff, keldysh_prefactor, mpi_rate_ref, ..self }
    }

    /// An explicit seed density, which is also a floor.
    pub fn with_seed_density(self, n_seed: K::Real) -> (m: Self)
        ensures
            m@ == (Model { seed: Some(n_seed), ..self@ }),
    {
        AirBreakdown { n_seed: Some(n_seed), ..self }
    }

    pub fn with_cascade_model(self, cascade_model: CascadeModel) -> (m: Self)
        ensures
            m@ == (Model { cascade: cascade_model, ..self@ }),
    {
        AirBreakdown { cascade_model, ..self }
    }

    /// Another pulse window, in pulse widths on each side.
    pub fn with_window(self, window_half_widths: K::Real) -> (m: Self)
        ensures
            m@ == (Model { window: window_half_widths, ..self@ }),
    {
        AirBreakdown { window_half_widths, ..self }
    }

    pub fn neutral_density(&self, pressure: K::Real) -> (n: K::Real)
        ensures
            self@.is_neutral(pressure, n),
    {
        self.kinetics.times(self.n_over_p, pressure)
    }

    /// Electron density that the ambient ionization sustains.
    pub fn background_electron_density(&self, pressure: K::Real) -> (d: K::Real)
        ensures
            self@.is_background(pressure, d),
    {
        let n: K::Real = self.neutral_density(pressure);
        let nu: K::Real = self.gas.attachment_rate(&self.kinetics, n);
        let zero: K::Real = self.kinetics.zero();
        let d: K::Real = if self.kinetics.is_at_most(nu, zero) {
            self.kinetics.zero()
        } else {
            self.kinetics.ambient_density(pressure, nu)
        };
        proof {
            assert(self@.is_attaching(pressure, n, nu));
            assert(self@.is_sustained(pressure, nu, d));
        }
        d
    }

    /// Density that a pulse starts from: the explicit seed, or the background.
    pub fn seed_density(&self, pressure: K::Real) -> (d: K::Real)
        ensures
            self@.is_seed(pressure, d),
    {
        match self.n_seed {
            Some(s) => s,
            None => self.background_electron_density(pressure),
        }
    }

    pub fn heating_power(&self, intensity: K::Real, pressure: K::Real) -> (h: K::Real)
        ensures
            call_ensures(
                K::heating,
                (&self@.kinetics, self@.omega, self@.gas, intensity, pressure),
                h,
            ),
    {
        self.kinetics.heating(self.omega, self.gas, intensity, pressure)
    }

    pub fn inelastic_loss_power(&self, pressure: K::Real) -> (l: K::Real)
        ensures
            call_ensures(K::inelastic_loss, (&self@.kinetics, self@.gas, pressure), l),
    {
        self.kinetics.inelastic_loss(self.gas, pressure)
    }

    /// Energy at which heating balances the losses.
    pub fn equilibrium_energy(&self, intensity: K::Real, pressure: K::Real) -> (e: K::Real)
        ensures
            self@.is_equilibrium(intensity, pressure, e),
    {
        let h: K::Real = self.heating_power(intensity, pressure);
        let nu: K::Real = self.kinetics.relaxation(self.gas, pressure);
        self.kinetics.ratio(h, nu)
    }

    pub fn photon_energy(&self) -> (e: K::Real)
        ensures
            call_ensures(K::photon_energy, (&self@.kinetics, self@.omega), e),
    {
        self.kinetics.photon_energy(self.omega)
    }

    /// Ionization rate of the cascade.
    pub fn cascade_rate(&self, intensity: K::Real, pressure: K::Real) -> (nu: K::Real)
        ensures
            self@.is_cascade(intensity, pressure, nu),
    {
        let k: &K = &self.kinetics;
        match self.cascade_model {
            CascadeModel::FixedMeanEnergy => {
                let h: K::Real = self.heating_power(intensity, pressure);
                let l: K::Real = self.inelastic_loss_power(pressure);
                let net: K::Real = k.minus(h, l);
                let zero: K::Real = k.zero();
                let gain: K::Real = k.larger(net, zero);
                k.ratio(gain, self.gas.u_ion)
            },
            CascadeModel::SelfConsistentClimb => {
                let e: K::Real = self.equilibrium_energy(intensity, pressure);
                proof {
                    assert(self@.is_equilibrium(intensity, pressure, e));
                }
                if k.is_at_most(e, self.gas.u_ion) {
                    return k.zero();
                }
                let relax: K::Real = k.relaxation(self.gas, pressure);
                let nu: K::Real = k.climb_rate(relax, e, self.gas.u_ion);
                proof {
                    assert(self@.is_climbed(pressure, e, nu));
                }
                nu
            },
            CascadeModel::DistributionResolved => {
                let relax: K::Real = k.relaxation(self.gas, pressure);
                let e: K::Real = self.equilibrium_energy(intensity, pressure);
                let photon: K::Real = self.photon_energy();
                proof {
                    assert(self@.is_equilibrium(intensity, pressure, e));
                }
                first_passage_ionization_rate(k, relax, e, self.gas.u_ion, photon)
            },
        }
    }

    pub fn diffusion_coefficient(&self, pressure: K::Real) -> (d: K::Real)
        ensures
            call_ensures(K::diffusion, (&self@.kinetics, self@.gas, pressure), d),
    {
        self.kinetics.diffusion(self.gas, pressure)
    }

    /// Rate at which electrons leave the focus.
    pub fn escape_rate(&self, pressure: K::Real) -> (nu: K::Real)
        ensures
            self@.is_escape(pressure, nu),
    {
        let d: K::Real = self.diffusion_coefficient(pressure);
        let v: K::Real = self.kinetics.mean_speed(self.gas);
        self.kinetics.escape(self.gas, self.focus, d, v)
    }

    /// Mean free path against the size of the focus.
    pub fn knudsen_number(&self, pressure: K::Real) -> (kn: K::Real)
        ensures
            self@.is_knudsen(pressure, kn),
    {
        let v: K::Real = self.kinetics.mean_speed(self.gas);
        self.kinetics.knudsen(self.gas, self.focus, v, pressure)
    }

    /// Rate of attachment and escape together.
    pub fn loss_rate(&self, pressure: K::Real) -> (nu: K::Real)
        ensures
            self@.is_loss(pressure, nu),
    {
        let n: K::Real = self.neutral_density(pressure);
        let att: K::Real = self.gas.attachment_rate(&self.kinetics, n);
        let esc: K::Real = self.escape_rate(pressure);
        proof {
            assert(self@.is_attaching(pressure, n, att));
            assert(self@.is_escape(pressure, esc));
        }
        self.kinetics.plus(att, esc)
    }

    /// Intensity at which the cascade just overcomes the inelastic losses.
    pub fn plateau_intensity(&self) -> (i: K::Real)
        ensures
            call_ensures(
                K::plateau,
                (&self@.kinetics, self@.omega, self@.gas.u_ion, self@.gas.delta_eff),
                i,
            ),
    {
        self.kinetics.plateau(self.omega, self.gas.u_ion, self.gas.delta_eff)
    }

    /// Rate of field ionization per volume.
    pub fn mpi_source(&self, intensity: K::Real, pressure: K::Real) -> (s: K::Real)
        ensures
            self@.is_mpi(intensity, pressure, s),
    {
        let k: &K = &self.kinetics;
        let n: K::Real = self.neutral_density(pressure);
        proof {
            assert(self@.is_neutral(pressure, n));
        }
        if k.is_positive(self.ppt_z_eff) {
            let w: K::Real = ppt_rate(k, intensity, self.omega, self.gas.u_ion, self.ppt_z_eff);
            let s: K::Real = k.times(n, w);
            proof {
                assert(is_ppt_rate(
                    self@.kinetics,
                    intensity,
                    self@.omega,
                    self@.gas.u_ion,
                    self@.charge,
                    w,
                ));
                assert(self@.is_charged_source(intensity, pressure, s));
            }
            return s;
        }
        if k.is_positive(self.keldysh_prefactor) {
            let w: K::Real = keldysh_rate(
                k,
                intensity,
                self.omega,
                self.gas.u_ion,
                self.keldysh_prefactor,
            );
            let s: K::Real = k.times(n, w);
            proof {
                assert(is_keldysh_rate(
                    self@.kinetics,
                    intensity,
                    self@.omega,
                    self@.gas.u_ion,
                    self@.prefactor,
                    w,
                ));
                assert(self@.is_prefixed_source(intensity, pressure, s));
            }
            return s;
        }
        if k.is_zero(self.mpi_rate_ref) {
            return k.zero();
        }
        let w: K::Real = k.reference_law(
            self.mpi_rate_ref,
            intensity,
            self.mpi_i_ref,
            self.k_photons,
        );
        let s: K::Real = k.times(n, w);
        proof {
            assert(self@.is_reference_source(intensity, pressure, s));
        }
        s
    }
}

impl<K: Kinetics> AirBreakdown<K> {
    /// Electron density after `dt` at an intensity and a pressure: logistic
    /// growth where there is no field ionization, else exponential growth with a
    /// source, no more than the neutrals can give.
    pub fn advance(
        &self,
        n_e: K::Real,
        intensity: K::Real,
        pressure: K::Real,
        dt: K::Real,
    ) -> (next: K::Real)
        ensures
            self@.is_advanced(n_e, intensity, pressure, dt, next),
    {
        let k: &K = &self.kinetics;
        let cascade: K::Real = self.cascade_rate(intensity, pressure);
        let loss: K::Real = self.loss_rate(pressure);
        let growth: K::Real = k.minus(cascade, loss);
        let source: K::Real = self.mpi_source(intensity, pressure);
        let neutral: K::Real = self.neutral_density(pressure);
        let depletion: K::Real = if k.is_positive(neutral) {
            k.ratio(cascade, neutral)
        } else {
            k.zero()
        };
        let rates: Rates<K::Real> = Rates { cascade, loss, growth, source, neutral, depletion };
        proof {
            assert(self@.are_rates(intensity, pressure, rates));
        }
        if k.is_zero(source) {
            let next: K::Real = self.grow(&rates, n_e, dt);
            proof {
                assert(self@.is_advanced_under(rates, n_e, dt, next));
            }
            next
        } else {
            let next: K::Real = self.feed(&rates, n_e, dt);
            proof {
                assert(self@.is_advanced_under(rates, n_e, dt, next));
            }
            next
        }
    }

    /// Logistic growth.
    fn grow(&self, rates: &Rates<K::Real>, n_e: K::Real, dt: K::Real) -> (next: K::Real)
        ensures
            self@.is_grown(*rates, n_e, dt, next),
    {
        let k: &K = &self.kinetics;
        let zero: K::Real = k.zero();
        if k.is_at_most(n_e, zero) {
            return k.zero();
        }
        let x: K::Real = k.times(rates.growth, dt);
        let minus: K::Real = k.negate(x);
        let neg: K::Real = k.capped(minus);
        let decay: K::Real = k.exponential(neg);
        let factor: K::Real = if k.is_negligible(x) {
            dt
        } else {
            let gain: K::Real = k.exponential_gain(neg);
            let loss: K::Real = k.negate(gain);
            k.ratio(loss, rates.growth)
        };
        let load: K::Real = k.times(rates.depletion, n_e);
        let drag: K::Real = k.times(load, factor);
        let denom: K::Real = k.plus(decay, drag);
        proof {
            assert(self@.is_span(x, neg, rates.growth, dt, factor));
            assert(self@.is_denominator(*rates, n_e, dt, x, neg, denom));
        }
        if k.is_valid(denom) {
            let next: K::Real = k.ratio(n_e, denom);
            proof {
                assert(self@.is_quotient(n_e, x, denom, next));
            }
            next
        } else {
            let e: K::Real = k.capped(x);
            let growth: K::Real = k.exponential(e);
            let next: K::Real = k.times(n_e, growth);
            proof {
                assert(self@.is_quotient(n_e, x, denom, next));
            }
            next
        }
    }

    /// Growth with a source.
    fn feed(&self, rates: &Rates<K::Real>, n_e: K::Real, dt: K::Real) -> (next: K::Real)
        ensures
            self@.is_fed(*rates, n_e, dt, next),
    {
        let k: &K = &self.kinetics;
        let load: K::Real = k.times(rates.depletion, n_e);
        let rate: K::Real = k.minus(rates.growth, load);
        let x: K::Real = k.times(rate, dt);
        let d: K::Real = k.clamped(x);
        let span: K::Real = if k.is_negligible(d) {
            dt
        } else {
            let gain: K::Real = k.exponential_gain(d);
            k.ratio(gain, rate)
        };
        let growth: K::Real = k.exponential(d);
        let grown: K::Real = k.times(n_e, growth);
        let fed: K::Real = k.times(rates.source, span);
        let free: K::Real = k.plus(grown, fed);
        proof {
            assert(self@.is_feeding(d, rate, dt, span));
            assert(self@.is_unlimited(rates.source, n_e, dt, rate, d, free));
        }
        if k.is_positive(rates.neutral) {
            k.smaller(free, rates.neutral)
        } else {
            free
        }
    }

    /// Largest electron density over a pulse of `n_steps` steps.
    pub fn peak_ne(
        &self,
        i_peak: K::Real,
        fwhm: K::Real,
        pressure: K::Real,
        n_steps: usize,
    ) -> (peak: K::Real)
        ensures
            self@.is_peak(i_peak, fwhm, pressure, n_steps, peak),
    {
        let k: &K = &self.kinetics;
        let half: K::Real = k.half_window(self.window_half_widths, fwhm);
        let dt: K::Real = k.pulse_step(half, n_steps);
        let ghost p = Pulse { i_peak, fwhm, pressure, half, dt };
        let mut n_e: K::Real = self.seed_density(pressure);
        let mut peak: K::Real = n_e;
        let ghost mut densities: Seq<K::Real> = seq![n_e];
        let ghost mut peaks: Seq<K::Real> = seq![n_e];
        for step in 0..n_steps
            invariant
                *k == self.kinetics,
                p == (Pulse { i_peak, fwhm, pressure, half, dt }),
                densities.len() == step + 1,
                densities.last() == n_e,
                peaks.last() == peak,
                self@.is_pulse_run(p, densities, peaks),
        {
            let intensity: K::Real = k.pulse_intensity(i_peak, fwhm, half, dt, step);
            let free: K::Real = self.advance(n_e, intensity, pressure, dt);
            let next: K::Real = match self.n_seed {
                Some(floor) => k.larger(free, floor),
                None => free,
            };
            let grows: bool = k.exceeds(next, peak);
            let top: K::Real = if grows {
                next
            } else {
                peak
            };
            proof {
                assert(self@.is_advanced(n_e, intensity, p.pressure, p.dt, free));
                assert(self@.is_pulse_step(p, step as int, n_e, next));
                assert(self@.is_peak_kept(next, peak, top));
                let d2 = densities.push(next);
                let p2 = peaks.push(top);
                assert forall|i: int| 0 <= i < d2.len() - 1 implies #[trigger] self@.is_pulse_leg(
                    p,
                    d2,
                    p2,
                    i,
                ) by {
                    if i < densities.len() - 1 {
                        assert(self@.is_pulse_leg(p, densities, peaks, i));
                    }
                }
                densities = d2;
                peaks = p2;
            }
            n_e = next;
            peak = top;
        }
        proof {
            assert(self@.is_pulse(i_peak, fwhm, pressure, n_steps, p));
        }
        peak
    }

    /// Whether a pulse breaks the gas down.
    pub fn breaks_down(
        &self,
        i_peak: K::Real,
        fwhm: K::Real,
        pressure: K::Real,
        n_steps: usize,
    ) -> (b: bool)
        ensures
            self@.is_breakdown(i_peak, fwhm, pressure, n_steps, b),
    {
        let peak: K::Real = self.peak_ne(i_peak, fwhm, pressure, n_steps);
        proof {
            assert(self@.is_peak(i_peak, fwhm, pressure, n_steps, peak));
        }
        self.kinetics.reaches(peak, self.n_bd)
    }

    /// Threshold intensity of a pulse: the mean of a bracket, halved until it is
    /// narrow or [`MAX_BISECTIONS`] times.
    pub fn threshold_intensity(&self, fwhm: K::Real, pressure: K::Real, n_steps: usize) -> (r: Result<
        K::Real,
        BreakdownError<K::Real>,
    >)
        ensures
            self@.is_threshold(fwhm, pressure, n_steps, r),
    {
        let k: &K = &self.kinetics;
        if !k.is_valid(pressure) {
            return Err(BreakdownError::BadPressure);
        }
        let mut lo: K::Real = k.bracket_floor();
        let mut hi: K::Real = k.bracket_ceiling();
        let below: bool = self.breaks_down(lo, fwhm, pressure, n_steps);
        proof {
            assert(self@.is_floor_judged(fwhm, pressure, n_steps, below));
        }
        if below {
            return Err(BreakdownError::BelowBracket { floor: lo, pressure });
        }
        let above: bool = self.breaks_down(hi, fwhm, pressure, n_steps);
        if !above {
            return Err(BreakdownError::AboveBracket { ceiling: hi, pressure });
        }
        let ghost mut trace: Seq<(K::Real, K::Real)> = seq![(lo, hi)];
        let mut halvings: usize = 0;
        let mut narrow: bool = false;
        while halvings < MAX_BISECTIONS && !narrow
            invariant
                *k == self.kinetics,
                halvings <= MAX_BISECTIONS,
                trace.len() == halvings + 1,
                trace.last() == (lo, hi),
                self@.is_search(fwhm, pressure, n_steps, trace),
                halvings > 0 ==> self@.is_narrow_at(trace, halvings as int, narrow),
                halvings == 0 ==> !narrow,
            decreases MAX_BISECTIONS - halvings,
        {
            let mid: K::Real = k.geometric_mean(lo, hi);
            let breaks: bool = self.breaks_down(mid, fwhm, pressure, n_steps);
            let ghost before = (lo, hi);
            if breaks {
                hi = mid;
            } else {
                lo = mid;
            }
            narrow = k.is_narrow(lo, hi);
            proof {
                assert(self@.is_halving(fwhm, pressure, n_steps, before, (lo, hi)));
                let t2 = trace.push((lo, hi));
                assert forall|i: int| 0 <= i < t2.len() - 1 implies #[trigger] self@.is_halving_at(
                    fwhm,
                    pressure,
                    n_steps,
                    t2,
                    i,
                ) by {
                    if i < trace.len() - 1 {
                        assert(self@.is_halving_at(fwhm, pressure, n_steps, trace, i));
                    }
                }
                assert forall|i: int| 0 < i < t2.len() - 1 implies #[trigger] self@.is_narrow_at(
                    t2,
                    i,
                    false,
                ) by {
                    assert(self@.is_narrow_at(trace, i, false));
                }
                trace = t2;
            }
            halvings = halvings + 1;
        }
        Ok(k.geometric_mean(lo, hi))
    }

    /// Thresholds at `n` pressures, logarithmically spaced. A pressure without a
    /// threshold is left out.
    pub fn pressure_sweep(
        &self,
        p_min: K::Real,
        p_max: K::Real,
        n: usize,
        fwhm: K::Real,
        n_steps: usize,
    ) -> (out: Vec<(K::Real, K::Real)>)
        ensures
            exists|points: Seq<(K::Real, Result<K::Real, BreakdownError<K::Real>>)>|
                {
                    &&& points.len() == n
                    &&& #[trigger] self@.is_sweep(p_min, p_max, n, fwhm, n_steps, points)
                    &&& out@ == kept(points)
                },
    {
        let parts: usize = if n > 2 {
            n - 1
        } else {
            1
        };
        let mut out: Vec<(K::Real, K::Real)> = Vec::new();
        let ghost mut points: Seq<(K::Real, Result<K::Real, BreakdownError<K::Real>>)> = Seq::empty();
        for i in 0..n
            invariant
                parts == sweep_parts(n),
                points.len() == i,
                self@.is_sweep(p_min, p_max, n, fwhm, n_steps, points),
                out@ == kept(points),
        {
            let p: K::Real = self.kinetics.log_spaced(p_min, p_max, i, parts);
            let found: Result<K::Real, BreakdownError<K::Real>> = self.threshold_intensity(
                fwhm,
                p,
                n_steps,
            );
            proof {
                assert(self@.is_sweep_point(
                    p_min,
                    p_max,
                    sweep_parts(n),
                    fwhm,
                    n_steps,
                    i as int,
                    (p, found),
                ));
                let longer = points.push((p, found));
                assert(longer.drop_last() =~= points);
                assert forall|j: int| 0 <= j < longer.len() implies self@.is_sweep_point(
                    p_min,
                    p_max,
                    sweep_parts(n),
                    fwhm,
                    n_steps,
                    j,
                    #[trigger] longer[j],
                ) by {
                    if j < points.len() {
                        assert(longer[j] == points[j]);
                    }
                }
                points = longer;
            }
            match found {
                Ok(t) => {
                    out.push((p, t));
                },
                Err(_) => {},
            }
        }
        out
    }
}

/// Every bracket of a threshold search holds the threshold: no breakdown was
/// found at its lower end, and breakdown was found at its upper end.
pub proof fn law_bracket_is_kept<K: Kinetics>(
    m: Model<K>,
    fwhm: K::Real,
    pressure: K::Real,
    n_steps: usize,
    trace: Seq<(K::Real, K::Real)>,
    i: int,
)
    requires
        m.is_search(fwhm, pressure, n_steps, trace),
        0 <= i < trace.len(),
    ensures
        m.is_bracket(fwhm, pressure, n_steps, trace[i]),
    decreases i,
{
    if i > 0 {
        law_bracket_is_kept(m, fwhm, pressure, n_steps, trace, i - 1);
        assert(m.is_halving_at(fwhm, pressure, n_steps, trace, i - 1));
    }
}

/// Brackets only narrow: in a search each one lies within the one before, where
/// the mean of two intensities, neither of them negative, lies between them.
pub proof fn law_brackets_are_nested<K: Kinetics>(
    m: Model<K>,
    fwhm: K::Real,
    pressure: K::Real,
    n_steps: usize,
    trace: Seq<(K::Real, K::Real)>,
    size: spec_fn(K::Real) -> real,
    i: int,
)
    requires
        m.is_search(fwhm, pressure, n_steps, trace),
        forall|a: K::Real, b: K::Real, c: K::Real| #[trigger]
            call_ensures(K::geometric_mean, (&m.kinetics, a, b), c) && 0real <= size(a) <= size(b)
                ==> size(a) <= size(c) <= size(b),
        0real <= size(trace[0].0) <= size(trace[0].1),
        0 <= i < trace.len() - 1,
    ensures
        0real <= size(trace[i].0) <= size(trace[i + 1].0) <= size(trace[i + 1].1) <= size(trace[i].1),
    decreases i,
{
    if i > 0 {
        law_brackets_are_nested(m, fwhm, pressure, n_steps, trace, size, i - 1);
    }
    assert(m.is_halving_at(fwhm, pressure, n_steps, trace, i));
}

/// The peak of a pulse is the largest of its densities: none exceeds it, and it
/// is one of them.
pub proof fn law_peak_is_the_largest_density<K: Kinetics>(
    m: Model<K>,
    p: Pulse<K::Real>,
    densities: Seq<K::Real>,
    peaks: Seq<K::Real>,
    size: spec_fn(K::Real) -> real,
    n: int,
)
    requires
        m.is_pulse_run(p, densities, peaks),
        forall|a: K::Real, b: K::Real, g: bool| #[trigger]
            call_ensures(K::exceeds, (&m.kinetics, a, b), g) ==> g == (size(a) > size(b)),
        0 <= n < peaks.len(),
    ensures
        forall|i: int| 0 <= i <= n ==> size(#[trigger] densities[i]) <= size(peaks[n]),
        exists|i: int| 0 <= i <= n && #[trigger] densities[i] == peaks[n],
    decreases n,
{
    if n > 0 {
        law_peak_is_the_largest_density(m, p, densities, peaks, size, n - 1);
        assert(m.is_pulse_leg(p, densities, peaks, n - 1));
        assert(m.is_peak_kept(densities[n], peaks[n - 1], peaks[n]));
        if peaks[n] == densities[n] {
        } else {
            let i = choose|i: int| 0 <= i <= n - 1 && #[trigger] densities[i] == peaks[n - 1];
            assert(densities[i] == peaks[n]);
        }
    } else {
        assert(densities[0] == peaks[0]);
    }
}

/// An explicit seed is a floor: no density of a pulse is below it.
pub proof fn law_seed_is_a_floor<K: Kinetics>(
    m: Model<K>,
    p: Pulse<K::Real>,
    densities: Seq<K::Real>,
    peaks: Seq<K::Real>,
    size: spec_fn(K::Real) -> real,
    seed: K::Real,
    i: int,
)
    requires
        m.is_pulse_run(p, densities, peaks),
        m.seed == Some(seed),
        forall|a: K::Real, b: K::Real, c: K::Real| #[trigger]
            call_ensures(K::larger, (&m.kinetics, a, b), c) ==> size(c) >= size(b),
        0 <= i < densities.len(),
    ensures
        size(densities[i]) >= size(seed),
{
    if i > 0 {
        assert(m.is_pulse_leg(p, densities, peaks, i - 1));
        assert(m.is_pulse_step(p, i - 1, densities[i - 1], densities[i]));
    }
}

/// With every law of field ionization off there is no field ionization.
pub proof fn law_no_law_no_source<K: Kinetics>(
    m: Model<K>,
    intensity: K::Real,
    pressure: K::Real,
    s: K::Real,
)
    requires
        m.is_off(m.charge),
        m.is_off(m.prefactor),
        m.is_off(m.mpi_rate),
        forall|z: K::Real, b: bool|
            m.is_off(z) && #[trigger] call_ensures(K::is_positive, (&m.kinetics, z), b) ==> !b,
        forall|z: K::Real, b: bool|
            m.is_off(z) && #[trigger] call_ensures(K::is_zero, (&m.kinetics, z), b) ==> b,
        m.is_mpi(intensity, pressure, s),
    ensures
        m.is_off(s),
{
}

/// The mean of two intensities above zero is above zero, and lies half way between
/// them in the logarithm.
pub open spec fn halves<K: Kinetics>(
    m: Model<K>,
    above: spec_fn(K::Real) -> bool,
    log: spec_fn(K::Real) -> real,
) -> bool {
    forall|a: K::Real, b: K::Real, c: K::Real| #[trigger]
        call_ensures(K::geometric_mean, (&m.kinetics, a, b), c) && above(a) && above(b) ==> above(c)
            && log(c) + log(c) == log(a) + log(b)
}

/// `width` halved `i` times.
pub open spec fn halved(width: real, i: nat) -> real
    decreases i,
{
    if i == 0 {
        width
    } else {
        halved(width, (i - 1) as nat) / 2real
    }
}

proof fn lemma_width_halves<K: Kinetics>(
    m: Model<K>,
    fwhm: K::Real,
    pressure: K::Real,
    n_steps: usize,
    trace: Seq<(K::Real, K::Real)>,
    above: spec_fn(K::Real) -> bool,
    log: spec_fn(K::Real) -> real,
    i: nat,
)
    requires
        m.is_search(fwhm, pressure, n_steps, trace),
        halves(m, above, log),
        above(trace[0].0) && above(trace[0].1),
        log(trace[0].0) <= log(trace[0].1),
        i < trace.len(),
    ensures
        above(trace[i as int].0) && above(trace[i as int].1),
        log(trace[i as int].0) <= log(trace[i as int].1),
        log(trace[i as int].1) - log(trace[i as int].0) == halved(
            log(trace[0].1) - log(trace[0].0),
            i,
        ),
        log(trace[0].0) <= log(trace[i as int].0),
        log(trace[i as int].1) <= log(trace[0].1),
    decreases i,
{
    if i > 0 {
        let k = (i - 1) as nat;
        lemma_width_halves(m, fwhm, pressure, n_steps, trace, above, log, k);
        assert(m.is_halving_at(fwhm, pressure, n_steps, trace, k as int));
    }
}

/// A threshold is pinned to the edge of breakdown: it lies in a bracket that is narrow
/// and within the whole range. No breakdown was found at the bracket's lower end,
/// breakdown was found at its upper end, and the logarithms of the two are less than
/// the tolerance apart, where the whole range is narrow once it is halved as often as
/// the search may halve it.
pub proof fn law_threshold_is_in_a_narrow_bracket<K: Kinetics>(
    m: Model<K>,
    fwhm: K::Real,
    pressure: K::Real,
    n_steps: usize,
    t: K::Real,
    above: spec_fn(K::Real) -> bool,
    log: spec_fn(K::Real) -> real,
    floor: real,
    ceiling: real,
    tolerance: real,
)
    requires
        m.is_threshold(fwhm, pressure, n_steps, Ok(t)),
        halves(m, above, log),
        forall|a: K::Real, b: K::Real| #[trigger]
            call_ensures(K::is_narrow, (&m.kinetics, a, b), true) && above(a) && above(b) ==> log(b)
                - log(a) < tolerance,
        forall|lo: K::Real| #[trigger]
            call_ensures(K::bracket_floor, (&m.kinetics,), lo) ==> above(lo) && log(lo) == floor,
        forall|hi: K::Real| #[trigger]
            call_ensures(K::bracket_ceiling, (&m.kinetics,), hi) ==> above(hi) && log(hi)
                == ceiling,
        floor <= ceiling,
        halved(ceiling - floor, MAX_BISECTIONS as nat) < tolerance,
    ensures
        exists|lo: K::Real, hi: K::Real|
            {
                &&& #[trigger] m.is_bracket(fwhm, pressure, n_steps, (lo, hi))
                &&& floor <= log(lo) <= log(t) <= log(hi) <= ceiling
                &&& log(hi) - log(lo) < tolerance
            },
{
    let trace = choose|trace: Seq<(K::Real, K::Real)>|
        {
            &&& #[trigger] m.is_search(fwhm, pressure, n_steps, trace)
            &&& trace.len() == MAX_BISECTIONS + 1 || (trace.len() > 1 && m.is_narrow_at(
                trace,
                trace.len() - 1,
                true,
            ))
            &&& call_ensures(
                K::geometric_mean,
                (&m.kinetics, trace.last().0, trace.last().1),
                t,
            )
        };
    let i = (trace.len() - 1) as nat;
    law_bracket_is_kept(m, fwhm, pressure, n_steps, trace, i as int);
    assert(call_ensures(K::bracket_floor, (&m.kinetics,), trace[0].0));
    assert(call_ensures(K::bracket_ceiling, (&m.kinetics,), trace[0].1));
    lemma_width_halves(m, fwhm, pressure, n_steps, trace, above, log, i);
    if trace.len() != MAX_BISECTIONS + 1 {
        assert(m.is_narrow_at(trace, trace.len() - 1, true));
    }
    let (lo, hi) = trace.last();
    assert(m.is_bracket(fwhm, pressure, n_steps, (lo, hi)));
}

} // verus!

//! A breakdown is a function of what goes into it.
//!
//! Where every operation of the arithmetic is a function of its arguments, so is every
//! rate, the density that a pulse leaves, the verdict, and the threshold.
use crate::breakdown0d::{
    are_coulomb_gammas, is_ati_exponent, is_ati_leg, is_ati_over, is_ati_run, is_ati_sum, is_dawson,
    is_far_next, is_far_series, is_far_sum, is_far_term, is_keldysh_rate, is_model, is_near_series,
    is_near_sum, is_near_term, is_order_weight, is_passage_integral, is_passage_leg,
    is_passage_rate, is_passage_result, is_passage_run, is_ppt_finished, is_ppt_rate,
    is_tunnel_exponent, is_turning, AirBreakdown, Focus, Gas, Kinetics, Model, Passage, Pulse,
    Rates, DAWSON_FAR_TERMS, DAWSON_NEAR_TERMS, MAX_BISECTIONS,
};
use crate::special::{is_direct, is_ln_gamma, is_series, is_term, Gamma, GAMMA_TERMS};
use vstd::prelude::*;

verus! {

/// The series of the gamma function is a function of its arguments.
#[verifier::opaque]
pub open spec fn sums_gamma_alike<K: Gamma>(k: K) -> bool {
    &&& forall|x: K::Real, y: K::Real, a: K::Real, b: K::Real| #[trigger]
        call_ensures(K::minus, (&k, x, y), a) && #[trigger] call_ensures(
            K::minus,
            (&k, x, y),
            b,
        ) ==> a == b
    &&& forall|x: K::Real, a: bool, b: bool| #[trigger]
        call_ensures(K::is_reflected, (&k, x), a) && #[trigger] call_ensures(
            K::is_reflected,
            (&k, x),
            b,
        ) ==> a == b
    &&& forall|x: K::Real, a: K::Real, b: K::Real| #[trigger]
        call_ensures(K::mirror, (&k, x), a) && #[trigger] call_ensures(
            K::mirror,
            (&k, x),
            b,
        ) ==> a == b
    &&& forall|x: K::Real, a: K::Real, b: K::Real| #[trigger]
        call_ensures(K::log_product, (&k, x), a) && #[trigger] call_ensures(
            K::log_product,
            (&k, x),
            b,
        ) ==> a == b
    &&& forall|a: K::Real, b: K::Real| #[trigger]
        call_ensures(K::first_term, (&k,), a) && #[trigger] call_ensures(
            K::first_term,
            (&k,),
            b,
        ) ==> a == b
    &&& forall|series: K::Real, x: K::Real, i: usize, a: K::Real, b: K::Real| #[trigger]
        call_ensures(K::add_term, (&k, series, x, i), a) && #[trigger] call_ensures(
            K::add_term,
            (&k, series, x, i),
            b,
        ) ==> a == b
    &&& forall|x: K::Real, series: K::Real, a: K::Real, b: K::Real| #[trigger]
        call_ensures(K::from_series, (&k, x, series), a) && #[trigger] call_ensures(
            K::from_series,
            (&k, x, series),
            b,
        ) ==> a == b
}

/// The plain arithmetic is a function of its arguments.
#[verifier::opaque]
pub open spec fn reckons_alike<K: Kinetics>(k: K) -> bool {
    &&& forall|a: K::Real, b: K::Real| #[trigger]
        call_ensures(K::zero, (&k,), a) && #[trigger] call_ensures(K::zero, (&k,), b) ==> a == b
    &&& forall|a: K::Real, b: K::Real| #[trigger]
        call_ensures(K::one, (&k,), a) && #[trigger] call_ensures(K::one, (&k,), b) ==> a == b
    &&& forall|a: K::Real, b: K::Real| #[trigger]
        call_ensures(K::half, (&k,), a) && #[trigger] call_ensures(K::half, (&k,), b) ==> a == b
    &&& forall|a: K::Real, b: K::Real| #[trigger]
        call_ensures(K::not_a_number, (&k,), a) && #[trigger] call_ensures(
            K::not_a_number,
            (&k,),
            b,
        ) ==> a == b
    &&& forall|a: K::Real, b: K::Real| #[trigger]
        call_ensures(K::infinity, (&k,), a) && #[trigger] call_ensures(
            K::infinity,
            (&k,),
            b,
        ) ==> a == b
    &&& forall|x: K::Real, y: K::Real, a: K::Real, b: K::Real| #[trigger]
        call_ensures(K::plus, (&k, x, y), a) && #[trigger] call_ensures(
            K::plus,
            (&k, x, y),
            b,
        ) ==> a == b
    &&& forall|x: K::Real, y: K::Real, a: K::Real, b: K::Real| #[trigger]
        call_ensures(K::minus, (&k, x, y), a) && #[trigger] call_ensures(
            K::minus,
            (&k, x, y),
            b,
        ) ==> a == b
    &&& forall|x: K::Real, y: K::Real, a: K::Real, b: K::Real| #[trigger]
        call_ensures(K::times, (&k, x, y), a) && #[trigger] call_ensures(
            K::times,
            (&k, x, y),
            b,
        ) ==> a == b
    &&& forall|x: K::Real, y: K::Real, a: K::Real, b: K::Real| #[trigger]
        call_ensures(K::ratio, (&k, x, y), a) && #[trigger] call_ensures(
            K::ratio,
            (&k, x, y),
            b,
        ) ==> a == b
    &&& forall|x: K::Real, a: K::Real, b: K::Real| #[trigger]
        call_ensures(K::negate, (&k, x), a) && #[trigger] call_ensures(
            K::negate,
            (&k, x),
            b,
        ) ==> a == b
    &&& forall|x: K::Real, a: K::Real, b: K::Real| #[trigger]
        call_ensures(K::magnitude, (&k, x), a) && #[trigger] call_ensures(
            K::magnitude,
            (&k, x),
            b,
        ) ==> a == b
    &&& forall|x: K::Real, y: K::Real, a: K::Real, b: K::Real| #[trigger]
        call_ensures(K::larger, (&k, x, y), a) && #[trigger] call_ensures(
            K::larger,
            (&k, x, y),
            b,
        ) ==> a == b
    &&& forall|x: K::Real, y: K::Real, a: K::Real, b: K::Real| #[trigger]
        call_ensures(K::smaller, (&k, x, y), a) && #[trigger] call_ensures(
            K::smaller,
            (&k, x, y),
            b,
        ) ==> a == b
    &&& forall|x: K::Real, a: K::Real, b: K::Real| #[trigger]
        call_ensures(K::exponential, (&k, x), a) && #[trigger] call_ensures(
            K::exponential,
            (&k, x),
            b,
        ) ==> a == b
    &&& forall|x: K::Real, a: K::Real, b: K::Real| #[trigger]
        call_ensures(K::exponential_gain, (&k, x), a) && #[trigger] call_ensures(
            K::exponential_gain,
            (&k, x),
            b,
        ) ==> a == b
    &&& forall|x: K::Real, y: K::Real, a: bool, b: bool| #[trigger]
        call_ensures(K::exceeds, (&k, x, y), a) && #[trigger] call_ensures(
            K::exceeds,
            (&k, x, y),
            b,
        ) ==> a == b
    &&& forall|x: K::Real, y: K::Real, a: bool, b: bool| #[trigger]
        call_ensures(K::reaches, (&k, x, y), a) && #[trigger] call_ensures(
            K::reaches,
            (&k, x, y),
            b,
        ) ==> a == b
    &&& forall|x: K::Real, y: K::Real, a: bool, b: bool| #[trigger]
        call_ensures(K::is_at_most, (&k, x, y), a) && #[trigger] call_ensures(
            K::is_at_most,
            (&k, x, y),
            b,
        ) ==> a == b
    &&& forall|x: K::Real, a: bool, b: bool| #[trigger]
        call_ensures(K::is_positive, (&k, x), a) && #[trigger] call_ensures(
            K::is_positive,
            (&k, x),
            b,
        ) ==> a == b
    &&& forall|x: K::Real, a: bool, b: bool| #[trigger]
        call_ensures(K::is_valid, (&k, x), a) && #[trigger] call_ensures(
            K::is_valid,
            (&k, x),
            b,
        ) ==> a == b
    &&& forall|x: K::Real, a: bool, b: bool| #[trigger]
        call_ensures(K::is_finite, (&k, x), a) && #[trigger] call_ensures(
            K::is_finite,
            (&k, x),
            b,
        ) ==> a == b
    &&& forall|x: K::Real, a: bool, b: bool| #[trigger]
        call_ensures(K::is_zero, (&k, x), a) && #[trigger] call_ensures(
            K::is_zero,
            (&k, x),
            b,
        ) ==> a == b
    &&& forall|x: K::Real, a: bool, b: bool| #[trigger]
        call_ensures(K::is_nan, (&k, x), a) && #[trigger] call_ensures(
            K::is_nan,
            (&k, x),
            b,
        ) ==> a == b
}

/// The quadrature of a first passage is a function of its arguments.
#[verifier::opaque]
pub open spec fn passes_alike<K: Kinetics>(k: K) -> bool {
    &&& forall|
        nu_relax: K::Real,
        eps_inf: K::Real,
        u_ion: K::Real,
        photon: K::Real,
        a: bool,
        b: bool,
    | #[trigger]
        call_ensures(K::climbs, (&k, nu_relax, eps_inf, u_ion, photon), a) && #[trigger] call_ensures(
            K::climbs,
            (&k, nu_relax, eps_inf, u_ion, photon),
            b,
        ) ==> a == b
    &&& forall|eps_inf: K::Real, u_ion: K::Real, photon: K::Real, a: bool, b: bool| #[trigger]
        call_ensures(K::is_blocked, (&k, eps_inf, u_ion, photon), a) && #[trigger] call_ensures(
            K::is_blocked,
            (&k, eps_inf, u_ion, photon),
            b,
        ) ==> a == b
    &&& forall|u_ion: K::Real, n: usize, a: K::Real, b: K::Real| #[trigger]
        call_ensures(K::passage_step, (&k, u_ion, n), a) && #[trigger] call_ensures(
            K::passage_step,
            (&k, u_ion, n),
            b,
        ) ==> a == b
    &&& forall|
        eps_inf: K::Real,
        photon: K::Real,
        h: K::Real,
        i: usize,
        a: K::Real,
        b: K::Real,
    | #[trigger]
        call_ensures(K::passage_potential, (&k, eps_inf, photon, h, i), a) && #[trigger] call_ensures(
            K::passage_potential,
            (&k, eps_inf, photon, h, i),
            b,
        ) ==> a == b
    &&& forall|now: K::Real, before: K::Real, a: K::Real, b: K::Real| #[trigger]
        call_ensures(K::passage_growth, (&k, now, before), a) && #[trigger] call_ensures(
            K::passage_growth,
            (&k, now, before),
            b,
        ) ==> a == b
    &&& forall|r: K::Real, s: K::Real, h: K::Real, a: K::Real, b: K::Real| #[trigger]
        call_ensures(K::passage_inner, (&k, r, s, h), a) && #[trigger] call_ensures(
            K::passage_inner,
            (&k, r, s, h),
            b,
        ) ==> a == b
    &&& forall|
        total: K::Real,
        s: K::Real,
        w: K::Real,
        h: K::Real,
        a: K::Real,
        b: K::Real,
    | #[trigger]
        call_ensures(K::passage_outer, (&k, total, s, w, h), a) && #[trigger] call_ensures(
            K::passage_outer,
            (&k, total, s, w, h),
            b,
        ) ==> a == b
    &&& forall|
        total: K::Real,
        nu_relax: K::Real,
        eps_inf: K::Real,
        photon: K::Real,
        a: K::Real,
        b: K::Real,
    | #[trigger]
        call_ensures(K::passage_time, (&k, total, nu_relax, eps_inf, photon), a) && #[trigger] call_ensures(
            K::passage_time,
            (&k, total, nu_relax, eps_inf, photon),
            b,
        ) ==> a == b
}

/// Multiphoton ionization is a function of its arguments.
#[verifier::opaque]
pub open spec fn tunnels_alike<K: Kinetics>(k: K) -> bool {
    &&& forall|
        intensity: K::Real,
        omega: K::Real,
        u_ion: K::Real,
        a: K::Real,
        b: K::Real,
    | #[trigger]
        call_ensures(K::keldysh_gamma, (&k, intensity, omega, u_ion), a) && #[trigger] call_ensures(
            K::keldysh_gamma,
            (&k, intensity, omega, u_ion),
            b,
        ) ==> a == b
    &&& forall|gamma: K::Real, a: bool, b: bool| #[trigger]
        call_ensures(K::is_small_gamma, (&k, gamma), a) && #[trigger] call_ensures(
            K::is_small_gamma,
            (&k, gamma),
            b,
        ) ==> a == b
    &&& forall|gamma: K::Real, a: K::Real, b: K::Real| #[trigger]
        call_ensures(K::exponent_series, (&k, gamma), a) && #[trigger] call_ensures(
            K::exponent_series,
            (&k, gamma),
            b,
        ) ==> a == b
    &&& forall|gamma: K::Real, a: K::Real, b: K::Real| #[trigger]
        call_ensures(K::exponent_closed, (&k, gamma), a) && #[trigger] call_ensures(
            K::exponent_closed,
            (&k, gamma),
            b,
        ) ==> a == b
    &&& forall|u_ion: K::Real, omega: K::Real, exponent: K::Real, a: K::Real, b: K::Real| #[trigger]
        call_ensures(K::keldysh_action, (&k, u_ion, omega, exponent), a) && #[trigger] call_ensures(
            K::keldysh_action,
            (&k, u_ion, omega, exponent),
            b,
        ) ==> a == b
    &&& forall|
        prefactor: K::Real,
        omega: K::Real,
        action: K::Real,
        a: K::Real,
        b: K::Real,
    | #[trigger]
        call_ensures(K::keldysh_law, (&k, prefactor, omega, action), a) && #[trigger] call_ensures(
            K::keldysh_law,
            (&k, prefactor, omega, action),
            b,
        ) ==> a == b
    &&& forall|x: K::Real, a: bool, b: bool| #[trigger]
        call_ensures(K::is_dawson_near, (&k, x), a) && #[trigger] call_ensures(
            K::is_dawson_near,
            (&k, x),
            b,
        ) ==> a == b
    &&& forall|term: K::Real, x: K::Real, n: usize, a: K::Real, b: K::Real| #[trigger]
        call_ensures(K::dawson_near, (&k, term, x, n), a) && #[trigger] call_ensures(
            K::dawson_near,
            (&k, term, x, n),
            b,
        ) ==> a == b
    &&& forall|term: K::Real, sum: K::Real, a: bool, b: bool| #[trigger]
        call_ensures(K::is_spent_term, (&k, term, sum), a) && #[trigger] call_ensures(
            K::is_spent_term,
            (&k, term, sum),
            b,
        ) ==> a == b
    &&& forall|x: K::Real, a: K::Real, b: K::Real| #[trigger]
        call_ensures(K::dawson_far_first, (&k, x), a) && #[trigger] call_ensures(
            K::dawson_far_first,
            (&k, x),
            b,
        ) ==> a == b
    &&& forall|term: K::Real, x: K::Real, n: usize, a: K::Real, b: K::Real| #[trigger]
        call_ensures(K::dawson_far, (&k, term, x, n), a) && #[trigger] call_ensures(
            K::dawson_far,
            (&k, term, x, n),
            b,
        ) ==> a == b
    &&& forall|gamma: K::Real, a: K::Real, b: K::Real| #[trigger]
        call_ensures(K::ati_decay, (&k, gamma), a) && #[trigger] call_ensures(
            K::ati_decay,
            (&k, gamma),
            b,
        ) ==> a == b
    &&& forall|decay: K::Real, a: usize, b: usize| #[trigger]
        call_ensures(K::ati_count, (&k, decay), a) && #[trigger] call_ensures(
            K::ati_count,
            (&k, decay),
            b,
        ) ==> a == b
    &&& forall|threshold: K::Real, i: usize, a: K::Real, b: K::Real| #[trigger]
        call_ensures(K::ati_excess, (&k, threshold, i), a) && #[trigger] call_ensures(
            K::ati_excess,
            (&k, threshold, i),
            b,
        ) ==> a == b
    &&& forall|decay: K::Real, excess: K::Real, a: K::Real, b: K::Real| #[trigger]
        call_ensures(K::ati_exponent, (&k, decay, excess), a) && #[trigger] call_ensures(
            K::ati_exponent,
            (&k, decay, excess),
            b,
        ) ==> a == b
    &&& forall|exponent: K::Real, a: bool, b: bool| #[trigger]
        call_ensures(K::is_underflow, (&k, exponent), a) && #[trigger] call_ensures(
            K::is_underflow,
            (&k, exponent),
            b,
        ) ==> a == b
    &&& forall|gamma: K::Real, excess: K::Real, a: K::Real, b: K::Real| #[trigger]
        call_ensures(K::ati_argument, (&k, gamma, excess), a) && #[trigger] call_ensures(
            K::ati_argument,
            (&k, gamma, excess),
            b,
        ) ==> a == b
    &&& forall|gamma: K::Real, sum: K::Real, a: K::Real, b: K::Real| #[trigger]
        call_ensures(K::ati_scale, (&k, gamma, sum), a) && #[trigger] call_ensures(
            K::ati_scale,
            (&k, gamma, sum),
            b,
        ) ==> a == b
    &&& forall|
        intensity: K::Real,
        omega: K::Real,
        u_ion: K::Real,
        a: K::Real,
        b: K::Real,
    | #[trigger]
        call_ensures(K::ppt_gamma, (&k, intensity, omega, u_ion), a) && #[trigger] call_ensures(
            K::ppt_gamma,
            (&k, intensity, omega, u_ion),
            b,
        ) ==> a == b
    &&& forall|gamma: K::Real, a: bool, b: bool| #[trigger]
        call_ensures(K::is_tunnelling, (&k, gamma), a) && #[trigger] call_ensures(
            K::is_tunnelling,
            (&k, gamma),
            b,
        ) ==> a == b
    &&& forall|u_ion: K::Real, omega: K::Real, gamma: K::Real, a: K::Real, b: K::Real| #[trigger]
        call_ensures(K::ppt_threshold, (&k, u_ion, omega, gamma), a) && #[trigger] call_ensures(
            K::ppt_threshold,
            (&k, u_ion, omega, gamma),
            b,
        ) ==> a == b
    &&& forall|a: K::Series, b: K::Series| #[trigger]
        call_ensures(K::series, (&k,), a) && #[trigger] call_ensures(K::series, (&k,), b) ==> a == b
    &&& forall|u_ion: K::Real, z_eff: K::Real, a: K::Real, b: K::Real| #[trigger]
        call_ensures(K::effective_number, (&k, u_ion, z_eff), a) && #[trigger] call_ensures(
            K::effective_number,
            (&k, u_ion, z_eff),
            b,
        ) ==> a == b
    &&& forall|
        intensity: K::Real,
        omega: K::Real,
        u_ion: K::Real,
        z_eff: K::Real,
        a0: K::Real,
        exponent: K::Real,
        ln_gammas: (K::Real, K::Real),
        a: K::Real,
        b: K::Real,
    | #[trigger]
        call_ensures(K::ppt_logarithm, (&k, intensity, omega, u_ion, z_eff, a0, exponent, ln_gammas), a) && #[trigger] call_ensures(
            K::ppt_logarithm,
            (&k, intensity, omega, u_ion, z_eff, a0, exponent, ln_gammas),
            b,
        ) ==> a == b
    &&& forall|logarithm: K::Real, a: K::Real, b: K::Real| #[trigger]
        call_ensures(K::ppt_law, (&k, logarithm), a) && #[trigger] call_ensures(
            K::ppt_law,
            (&k, logarithm),
            b,
        ) ==> a == b
    &&& forall|
        rate: K::Real,
        intensity: K::Real,
        reference: K::Real,
        photons: i32,
        a: K::Real,
        b: K::Real,
    | #[trigger]
        call_ensures(K::reference_law, (&k, rate, intensity, reference, photons), a) && #[trigger] call_ensures(
            K::reference_law,
            (&k, rate, intensity, reference, photons),
            b,
        ) ==> a == b
}

/// Losses, growth and pulses are functions of their arguments.
#[verifier::opaque]
pub open spec fn evolves_alike<K: Kinetics>(k: K) -> bool {
    &&& forall|gas: Gas<K::Real>, n_neutral: K::Real, a: K::Real, b: K::Real| #[trigger]
        call_ensures(K::attachment, (&k, gas, n_neutral), a) && #[trigger] call_ensures(
            K::attachment,
            (&k, gas, n_neutral),
            b,
        ) ==> a == b
    &&& forall|gas: Gas<K::Real>, a: K::Real, b: K::Real| #[trigger]
        call_ensures(K::mean_speed, (&k, gas), a) && #[trigger] call_ensures(
            K::mean_speed,
            (&k, gas),
            b,
        ) ==> a == b
    &&& forall|pressure: K::Real, nu_att: K::Real, a: K::Real, b: K::Real| #[trigger]
        call_ensures(K::ambient_density, (&k, pressure, nu_att), a) && #[trigger] call_ensures(
            K::ambient_density,
            (&k, pressure, nu_att),
            b,
        ) ==> a == b
    &&& forall|
        omega: K::Real,
        gas: Gas<K::Real>,
        intensity: K::Real,
        pressure: K::Real,
        a: K::Real,
        b: K::Real,
    | #[trigger]
        call_ensures(K::heating, (&k, omega, gas, intensity, pressure), a) && #[trigger] call_ensures(
            K::heating,
            (&k, omega, gas, intensity, pressure),
            b,
        ) ==> a == b
    &&& forall|gas: Gas<K::Real>, pressure: K::Real, a: K::Real, b: K::Real| #[trigger]
        call_ensures(K::inelastic_loss, (&k, gas, pressure), a) && #[trigger] call_ensures(
            K::inelastic_loss,
            (&k, gas, pressure),
            b,
        ) ==> a == b
    &&& forall|gas: Gas<K::Real>, pressure: K::Real, a: K::Real, b: K::Real| #[trigger]
        call_ensures(K::relaxation, (&k, gas, pressure), a) && #[trigger] call_ensures(
            K::relaxation,
            (&k, gas, pressure),
            b,
        ) ==> a == b
    &&& forall|
        nu_relax: K::Real,
        eps_inf: K::Real,
        u_ion: K::Real,
        a: K::Real,
        b: K::Real,
    | #[trigger]
        call_ensures(K::climb_rate, (&k, nu_relax, eps_inf, u_ion), a) && #[trigger] call_ensures(
            K::climb_rate,
            (&k, nu_relax, eps_inf, u_ion),
            b,
        ) ==> a == b
    &&& forall|omega: K::Real, a: K::Real, b: K::Real| #[trigger]
        call_ensures(K::photon_energy, (&k, omega), a) && #[trigger] call_ensures(
            K::photon_energy,
            (&k, omega),
            b,
        ) ==> a == b
    &&& forall|gas: Gas<K::Real>, pressure: K::Real, a: K::Real, b: K::Real| #[trigger]
        call_ensures(K::diffusion, (&k, gas, pressure), a) && #[trigger] call_ensures(
            K::diffusion,
            (&k, gas, pressure),
            b,
        ) ==> a == b
    &&& forall|
        gas: Gas<K::Real>,
        focus: Focus<K::Real>,
        d_e: K::Real,
        speed: K::Real,
        a: K::Real,
        b: K::Real,
    | #[trigger]
        call_ensures(K::escape, (&k, gas, focus, d_e, speed), a) && #[trigger] call_ensures(
            K::escape,
            (&k, gas, focus, d_e, speed),
            b,
        ) ==> a == b
    &&& forall|exponent: K::Real, a: K::Real, b: K::Real| #[trigger]
        call_ensures(K::capped, (&k, exponent), a) && #[trigger] call_ensures(
            K::capped,
            (&k, exponent),
            b,
        ) ==> a == b
    &&& forall|exponent: K::Real, a: K::Real, b: K::Real| #[trigger]
        call_ensures(K::clamped, (&k, exponent), a) && #[trigger] call_ensures(
            K::clamped,
            (&k, exponent),
            b,
        ) ==> a == b
    &&& forall|exponent: K::Real, a: bool, b: bool| #[trigger]
        call_ensures(K::is_negligible, (&k, exponent), a) && #[trigger] call_ensures(
            K::is_negligible,
            (&k, exponent),
            b,
        ) ==> a == b
    &&& forall|half_widths: K::Real, fwhm: K::Real, a: K::Real, b: K::Real| #[trigger]
        call_ensures(K::half_window, (&k, half_widths, fwhm), a) && #[trigger] call_ensures(
            K::half_window,
            (&k, half_widths, fwhm),
            b,
        ) ==> a == b
    &&& forall|half: K::Real, n_steps: usize, a: K::Real, b: K::Real| #[trigger]
        call_ensures(K::pulse_step, (&k, half, n_steps), a) && #[trigger] call_ensures(
            K::pulse_step,
            (&k, half, n_steps),
            b,
        ) ==> a == b
    &&& forall|
        i_peak: K::Real,
        fwhm: K::Real,
        half: K::Real,
        dt: K::Real,
        step: usize,
        a: K::Real,
        b: K::Real,
    | #[trigger]
        call_ensures(K::pulse_intensity, (&k, i_peak, fwhm, half, dt, step), a) && #[trigger] call_ensures(
            K::pulse_intensity,
            (&k, i_peak, fwhm, half, dt, step),
            b,
        ) ==> a == b
    &&& forall|a: K::Real, b: K::Real| #[trigger]
        call_ensures(K::bracket_floor, (&k,), a) && #[trigger] call_ensures(
            K::bracket_floor,
            (&k,),
            b,
        ) ==> a == b
    &&& forall|a: K::Real, b: K::Real| #[trigger]
        call_ensures(K::bracket_ceiling, (&k,), a) && #[trigger] call_ensures(
            K::bracket_ceiling,
            (&k,),
            b,
        ) ==> a == b
    &&& forall|lo: K::Real, hi: K::Real, a: K::Real, b: K::Real| #[trigger]
        call_ensures(K::geometric_mean, (&k, lo, hi), a) && #[trigger] call_ensures(
            K::geometric_mean,
            (&k, lo, hi),
            b,
        ) ==> a == b
    &&& forall|lo: K::Real, hi: K::Real, a: bool, b: bool| #[trigger]
        call_ensures(K::is_narrow, (&k, lo, hi), a) && #[trigger] call_ensures(
            K::is_narrow,
            (&k, lo, hi),
            b,
        ) ==> a == b
    &&& forall|wavelength: K::Real, a: K::Real, b: K::Real| #[trigger]
        call_ensures(K::angular_frequency, (&k, wavelength), a) && #[trigger] call_ensures(
            K::angular_frequency,
            (&k, wavelength),
            b,
        ) ==> a == b
    &&& forall|u_ion: K::Real, omega: K::Real, a: i32, b: i32| #[trigger]
        call_ensures(K::photon_count, (&k, u_ion, omega), a) && #[trigger] call_ensures(
            K::photon_count,
            (&k, u_ion, omega),
            b,
        ) ==> a == b
    &&& forall|temperature: K::Real, a: K::Real, b: K::Real| #[trigger]
        call_ensures(K::density_per_pressure, (&k, temperature), a) && #[trigger] call_ensures(
            K::density_per_pressure,
            (&k, temperature),
            b,
        ) ==> a == b
    &&& forall|a: K::Real, b: K::Real| #[trigger]
        call_ensures(K::default_criterion, (&k,), a) && #[trigger] call_ensures(
            K::default_criterion,
            (&k,),
            b,
        ) ==> a == b
    &&& forall|a: K::Real, b: K::Real| #[trigger]
        call_ensures(K::default_charge, (&k,), a) && #[trigger] call_ensures(
            K::default_charge,
            (&k,),
            b,
        ) ==> a == b
    &&& forall|a: K::Real, b: K::Real| #[trigger]
        call_ensures(K::default_window, (&k,), a) && #[trigger] call_ensures(
            K::default_window,
            (&k,),
            b,
        ) ==> a == b
}

/// Every operation of the kinetics is a function of its arguments.
pub open spec fn is_repeatable<K: Kinetics>(k: K) -> bool {
    &&& reckons_alike(k)
    &&& passes_alike(k)
    &&& tunnels_alike(k)
    &&& evolves_alike(k)
    &&& forall|series: K::Series| #[trigger]
        call_ensures(K::series, (&k,), series) ==> sums_gamma_alike(series)
}

proof fn lemma_series_is_one<G: Gamma>(g: G, x: G::Real, a: Seq<G::Real>, b: Seq<G::Real>, i: int)
    requires
        sums_gamma_alike(g),
        is_series(g, x, a),
        is_series(g, x, b),
        0 <= i < a.len(),
        i < b.len(),
    ensures
        a[i] == b[i],
    decreases i,
{
    reveal(sums_gamma_alike);
    if i > 0 {
        lemma_series_is_one(g, x, a, b, i - 1);
        assert(is_term(g, x, a, i - 1) && is_term(g, x, b, i - 1));
    }
}

pub(crate) proof fn lemma_direct_is_one<G: Gamma>(g: G, x: G::Real, a: G::Real, b: G::Real)
    requires
        sums_gamma_alike(g),
        is_direct(g, x, a),
        is_direct(g, x, b),
    ensures
        a == b,
{
    let s = choose|run: Seq<G::Real>| #[trigger]
        is_series(g, x, run) && run.len() == GAMMA_TERMS + 1 && call_ensures(
            G::from_series,
            (&g, x, run.last()),
            a,
        );
    let t = choose|run: Seq<G::Real>| #[trigger]
        is_series(g, x, run) && run.len() == GAMMA_TERMS + 1 && call_ensures(
            G::from_series,
            (&g, x, run.last()),
            b,
        );
    lemma_series_is_one(g, x, s, t, s.len() - 1);
    reveal(sums_gamma_alike);
}

proof fn lemma_ln_gamma_is_one<G: Gamma>(g: G, x: G::Real, a: G::Real, b: G::Real)
    requires
        sums_gamma_alike(g),
        is_ln_gamma(g, x, a),
        is_ln_gamma(g, x, b),
    ensures
        a == b,
{
    assert forall|x: G::Real, p: G::Real, q: G::Real| #[trigger]
        is_direct(g, x, p) && #[trigger] is_direct(g, x, q) implies p == q by {
        lemma_direct_is_one(g, x, p, q);
    }
    reveal(sums_gamma_alike);
}

proof fn lemma_passage_is_one<K: Kinetics>(
    k: K,
    eps_inf: K::Real,
    photon: K::Real,
    h: K::Real,
    n: int,
    a: Seq<Passage<K::Real>>,
    b: Seq<Passage<K::Real>>,
    i: int,
)
    requires
        reckons_alike(k),
        passes_alike(k),
        is_passage_run(k, eps_inf, photon, h, n, a),
        is_passage_run(k, eps_inf, photon, h, n, b),
        0 <= i < a.len(),
        i < b.len(),
    ensures
        a[i] == b[i],
    decreases i,
{
    reveal(reckons_alike);
    reveal(passes_alike);
    if i > 0 {
        lemma_passage_is_one(k, eps_inf, photon, h, n, a, b, i - 1);
        assert(is_passage_leg(k, eps_inf, photon, h, n, a, i - 1));
        assert(is_passage_leg(k, eps_inf, photon, h, n, b, i - 1));
    }
}

proof fn lemma_integral_is_one<K: Kinetics>(
    k: K,
    eps_inf: K::Real,
    u_ion: K::Real,
    photon: K::Real,
    n: int,
    x: K::Real,
    y: K::Real,
)
    requires
        reckons_alike(k),
        passes_alike(k),
        is_passage_integral(k, eps_inf, u_ion, photon, n, x),
        is_passage_integral(k, eps_inf, u_ion, photon, n, y),
    ensures
        x == y,
{
    let (h, a) = choose|h: K::Real, run: Seq<Passage<K::Real>>|
        {
            &&& call_ensures(K::passage_step, (&k, u_ion, n as usize), h)
            &&& #[trigger] is_passage_run(k, eps_inf, photon, h, n, run)
            &&& is_passage_result(k, n, run, x)
        };
    let (g, b) = choose|h: K::Real, run: Seq<Passage<K::Real>>|
        {
            &&& call_ensures(K::passage_step, (&k, u_ion, n as usize), h)
            &&& #[trigger] is_passage_run(k, eps_inf, photon, h, n, run)
            &&& is_passage_result(k, n, run, y)
        };
    assert(h == g) by {
        reveal(passes_alike);
    }
    let shorter = if a.len() <= b.len() {
        a.len()
    } else {
        b.len()
    };
    lemma_passage_is_one(k, eps_inf, photon, h, n, a, b, shorter - 1);
    reveal(reckons_alike);
}

proof fn lemma_passage_rate_is_one<K: Kinetics>(
    k: K,
    nu_relax: K::Real,
    eps_inf: K::Real,
    u_ion: K::Real,
    photon: K::Real,
    x: K::Real,
    y: K::Real,
)
    requires
        reckons_alike(k),
        passes_alike(k),
        is_passage_rate(k, nu_relax, eps_inf, u_ion, photon, x),
        is_passage_rate(k, nu_relax, eps_inf, u_ion, photon, y),
    ensures
        x == y,
{
    assert forall|n: int, p: K::Real, q: K::Real| #[trigger]
        is_passage_integral(k, eps_inf, u_ion, photon, n, p) && #[trigger] is_passage_integral(
            k,
            eps_inf,
            u_ion,
            photon,
            n,
            q,
        ) implies p == q by {
        lemma_integral_is_one(k, eps_inf, u_ion, photon, n, p, q);
    }
    reveal(reckons_alike);
    reveal(passes_alike);
}

proof fn lemma_exponent_is_one<K: Kinetics>(k: K, gamma: K::Real, x: K::Real, y: K::Real)
    requires
        reckons_alike(k),
        tunnels_alike(k),
        is_tunnel_exponent(k, gamma, x),
        is_tunnel_exponent(k, gamma, y),
    ensures
        x == y,
{
    reveal(reckons_alike);
    reveal(tunnels_alike);
}

pub(crate) proof fn lemma_keldysh_is_one<K: Kinetics>(
    k: K,
    intensity: K::Real,
    omega: K::Real,
    u_ion: K::Real,
    prefactor: K::Real,
    x: K::Real,
    y: K::Real,
)
    requires
        reckons_alike(k),
        tunnels_alike(k),
        is_keldysh_rate(k, intensity, omega, u_ion, prefactor, x),
        is_keldysh_rate(k, intensity, omega, u_ion, prefactor, y),
    ensures
        x == y,
{
    assert forall|g: K::Real, p: K::Real, q: K::Real| #[trigger]
        is_tunnel_exponent(k, g, p) && #[trigger] is_tunnel_exponent(k, g, q) implies p == q by {
        lemma_exponent_is_one(k, g, p, q);
    }
    reveal(reckons_alike);
    reveal(tunnels_alike);
}

proof fn lemma_near_is_one<K: Kinetics>(
    k: K,
    x: K::Real,
    a: Seq<K::Real>,
    s: Seq<K::Real>,
    b: Seq<K::Real>,
    t: Seq<K::Real>,
    i: int,
)
    requires
        reckons_alike(k),
        tunnels_alike(k),
        is_near_series(k, x, a, s),
        is_near_series(k, x, b, t),
        0 <= i < a.len(),
        i < b.len(),
    ensures
        a[i] == b[i],
        s[i] == t[i],
    decreases i,
{
    reveal(reckons_alike);
    reveal(tunnels_alike);
    if i > 0 {
        lemma_near_is_one(k, x, a, s, b, t, i - 1);
        assert(is_near_term(k, x, a, s, i - 1) && is_near_term(k, x, b, t, i - 1));
    }
}

proof fn lemma_near_sum_is_one<K: Kinetics>(k: K, x: K::Real, p: K::Real, q: K::Real)
    requires
        reckons_alike(k),
        tunnels_alike(k),
        is_near_sum(k, x, p),
        is_near_sum(k, x, q),
    ensures
        p == q,
{
    let (a, s) = choose|terms: Seq<K::Real>, sums: Seq<K::Real>|
        {
            &&& #[trigger] is_near_series(k, x, terms, sums)
            &&& sums.last() == p
            &&& terms.len() == DAWSON_NEAR_TERMS || (terms.len() > 1 && call_ensures(
                K::is_spent_term,
                (&k, terms.last(), p),
                true,
            ))
        };
    let (b, t) = choose|terms: Seq<K::Real>, sums: Seq<K::Real>|
        {
            &&& #[trigger] is_near_series(k, x, terms, sums)
            &&& sums.last() == q
            &&& terms.len() == DAWSON_NEAR_TERMS || (terms.len() > 1 && call_ensures(
                K::is_spent_term,
                (&k, terms.last(), q),
                true,
            ))
        };
    let shorter = if a.len() <= b.len() {
        a.len()
    } else {
        b.len()
    };
    lemma_near_is_one(k, x, a, s, b, t, shorter - 1);
    assert(a[shorter - 1] == b[shorter - 1]);
    reveal(tunnels_alike);
}

proof fn lemma_far_next_is_one<K: Kinetics>(
    k: K,
    x: K::Real,
    term: K::Real,
    n: usize,
    p: K::Real,
    up: bool,
    q: K::Real,
    down: bool,
)
    requires
        reckons_alike(k),
        tunnels_alike(k),
        is_far_next(k, x, term, n, p, up),
        is_far_next(k, x, term, n, q, down),
    ensures
        p == q,
        up == down,
{
    reveal(reckons_alike);
    reveal(tunnels_alike);
}

proof fn lemma_far_is_one<K: Kinetics>(
    k: K,
    x: K::Real,
    a: Seq<K::Real>,
    s: Seq<K::Real>,
    b: Seq<K::Real>,
    t: Seq<K::Real>,
    i: int,
)
    requires
        reckons_alike(k),
        tunnels_alike(k),
        is_far_series(k, x, a, s),
        is_far_series(k, x, b, t),
        0 <= i < a.len(),
        i < b.len(),
    ensures
        a[i] == b[i],
        s[i] == t[i],
    decreases i,
{
    if i > 0 {
        lemma_far_is_one(k, x, a, s, b, t, i - 1);
        assert(is_far_term(k, x, a, s, i - 1) && is_far_term(k, x, b, t, i - 1));
        lemma_far_next_is_one(k, x, a[i - 1], i as usize, a[i], false, b[i], false);
    }
    reveal(reckons_alike);
    reveal(tunnels_alike);
}

proof fn lemma_far_stops_at_one<K: Kinetics>(
    k: K,
    x: K::Real,
    a: Seq<K::Real>,
    s: Seq<K::Real>,
    b: Seq<K::Real>,
    t: Seq<K::Real>,
)
    requires
        reckons_alike(k),
        tunnels_alike(k),
        is_far_series(k, x, a, s),
        is_far_series(k, x, b, t),
        is_turning(k, x, a),
    ensures
        a.len() >= b.len(),
{
    if a.len() < b.len() {
        let i = a.len() - 1;
        lemma_far_is_one(k, x, a, s, b, t, i);
        assert(is_far_term(k, x, b, t, i));
        let next = choose|next: K::Real| #[trigger]
            is_far_next(k, x, a.last(), a.len() as usize, next, true);
        lemma_far_next_is_one(k, x, a.last(), a.len() as usize, next, true, b[i + 1], false);
    }
}

proof fn lemma_far_sum_is_one<K: Kinetics>(k: K, x: K::Real, p: K::Real, q: K::Real)
    requires
        reckons_alike(k),
        tunnels_alike(k),
        is_far_sum(k, x, p),
        is_far_sum(k, x, q),
    ensures
        p == q,
{
    let (a, s) = choose|terms: Seq<K::Real>, sums: Seq<K::Real>|
        {
            &&& #[trigger] is_far_series(k, x, terms, sums)
            &&& sums.last() == p
            &&& terms.len() == DAWSON_FAR_TERMS || is_turning(k, x, terms)
        };
    let (b, t) = choose|terms: Seq<K::Real>, sums: Seq<K::Real>|
        {
            &&& #[trigger] is_far_series(k, x, terms, sums)
            &&& sums.last() == q
            &&& terms.len() == DAWSON_FAR_TERMS || is_turning(k, x, terms)
        };
    if a.len() < b.len() {
        lemma_far_stops_at_one(k, x, a, s, b, t);
    }
    if b.len() < a.len() {
        lemma_far_stops_at_one(k, x, b, t, a, s);
    }
    lemma_far_is_one(k, x, a, s, b, t, a.len() - 1);
}

pub(crate) proof fn lemma_dawson_is_one<K: Kinetics>(k: K, x: K::Real, p: K::Real, q: K::Real)
    requires
        reckons_alike(k),
        tunnels_alike(k),
        is_dawson(k, x, p),
        is_dawson(k, x, q),
    ensures
        p == q,
{
    assert forall|x: K::Real, p: K::Real, q: K::Real| #[trigger]
        is_near_sum(k, x, p) && #[trigger] is_near_sum(k, x, q) implies p == q by {
        lemma_near_sum_is_one(k, x, p, q);
    }
    assert forall|x: K::Real, p: K::Real, q: K::Real| #[trigger]
        is_far_sum(k, x, p) && #[trigger] is_far_sum(k, x, q) implies p == q by {
        lemma_far_sum_is_one(k, x, p, q);
    }
    reveal(reckons_alike);
    reveal(tunnels_alike);
}

proof fn lemma_ati_is_one<K: Kinetics>(
    k: K,
    gamma: K::Real,
    nu: K::Real,
    decay: K::Real,
    a: Seq<K::Real>,
    b: Seq<K::Real>,
    i: int,
)
    requires
        reckons_alike(k),
        tunnels_alike(k),
        is_ati_run(k, gamma, nu, decay, a),
        is_ati_run(k, gamma, nu, decay, b),
        0 <= i < a.len(),
        i < b.len(),
    ensures
        a[i] == b[i],
    decreases i,
{
    if i > 0 {
        lemma_ati_is_one(k, gamma, nu, decay, a, b, i - 1);
        assert(is_ati_leg(k, gamma, nu, decay, a, i - 1));
        assert(is_ati_leg(k, gamma, nu, decay, b, i - 1));
        assert forall|x: K::Real, p: K::Real, q: K::Real| #[trigger]
            is_dawson(k, x, p) && #[trigger] is_dawson(k, x, q) implies p == q by {
            lemma_dawson_is_one(k, x, p, q);
        }
    }
    reveal(reckons_alike);
    reveal(tunnels_alike);
}

proof fn lemma_ati_stops_at_one<K: Kinetics>(
    k: K,
    gamma: K::Real,
    nu: K::Real,
    decay: K::Real,
    a: Seq<K::Real>,
    b: Seq<K::Real>,
)
    requires
        reckons_alike(k),
        tunnels_alike(k),
        is_ati_run(k, gamma, nu, decay, a),
        is_ati_run(k, gamma, nu, decay, b),
        exists|excess: K::Real, e: K::Real| #[trigger]
            is_ati_exponent(k, nu, decay, a.len() - 1, excess, e, true),
    ensures
        a.len() >= b.len(),
{
    if a.len() < b.len() {
        assert(is_ati_leg(k, gamma, nu, decay, b, a.len() - 1));
        reveal(tunnels_alike);
    }
}

proof fn lemma_ati_sum_is_one<K: Kinetics>(
    k: K,
    gamma: K::Real,
    nu: K::Real,
    terms: usize,
    p: K::Real,
    q: K::Real,
)
    requires
        reckons_alike(k),
        tunnels_alike(k),
        is_ati_sum(k, gamma, nu, terms, p),
        is_ati_sum(k, gamma, nu, terms, q),
    ensures
        p == q,
{
    let (c, a) = choose|decay: K::Real, run: Seq<K::Real>|
        {
            &&& call_ensures(K::ati_decay, (&k, gamma), decay)
            &&& #[trigger] is_ati_run(k, gamma, nu, decay, run)
            &&& is_ati_over(k, nu, decay, terms, run)
            &&& call_ensures(K::ati_scale, (&k, gamma, run.last()), p)
        };
    let (d, b) = choose|decay: K::Real, run: Seq<K::Real>|
        {
            &&& call_ensures(K::ati_decay, (&k, gamma), decay)
            &&& #[trigger] is_ati_run(k, gamma, nu, decay, run)
            &&& is_ati_over(k, nu, decay, terms, run)
            &&& call_ensures(K::ati_scale, (&k, gamma, run.last()), q)
        };
    assert(c == d) by {
        reveal(tunnels_alike);
    }
    if a.len() < b.len() {
        lemma_ati_stops_at_one(k, gamma, nu, c, a, b);
    }
    if b.len() < a.len() {
        lemma_ati_stops_at_one(k, gamma, nu, c, b, a);
    }
    lemma_ati_is_one(k, gamma, nu, c, a, b, a.len() - 1);
    reveal(tunnels_alike);
}

proof fn lemma_order_weight_is_one<K: Kinetics>(
    k: K,
    omega: K::Real,
    u_ion: K::Real,
    gamma: K::Real,
    p: K::Real,
    q: K::Real,
)
    requires
        reckons_alike(k),
        tunnels_alike(k),
        is_order_weight(k, omega, u_ion, gamma, p),
        is_order_weight(k, omega, u_ion, gamma, q),
    ensures
        p == q,
{
    assert forall|nu: K::Real, terms: usize, p: K::Real, q: K::Real| #[trigger]
        is_ati_sum(k, gamma, nu, terms, p) && #[trigger] is_ati_sum(
            k,
            gamma,
            nu,
            terms,
            q,
        ) implies p == q by {
        lemma_ati_sum_is_one(k, gamma, nu, terms, p, q);
    }
    reveal(reckons_alike);
    reveal(tunnels_alike);
}

proof fn lemma_gammas_are_one<K: Kinetics>(
    k: K,
    u_ion: K::Real,
    z_eff: K::Real,
    p: (K::Real, K::Real),
    q: (K::Real, K::Real),
)
    requires
        is_repeatable(k),
        are_coulomb_gammas(k, u_ion, z_eff, p),
        are_coulomb_gammas(k, u_ion, z_eff, q),
    ensures
        p == q,
{
    assert forall|g: K::Series, x: K::Real, p: K::Real, q: K::Real|
        #![trigger is_ln_gamma(g, x, p), is_ln_gamma(g, x, q)]
        sums_gamma_alike(g) && is_ln_gamma(g, x, p) && is_ln_gamma(g, x, q) implies p == q by {
        lemma_ln_gamma_is_one(g, x, p, q);
    }
    reveal(reckons_alike);
    reveal(tunnels_alike);
}

proof fn lemma_ppt_is_finished_as_one<K: Kinetics>(
    k: K,
    intensity: K::Real,
    omega: K::Real,
    u_ion: K::Real,
    z_eff: K::Real,
    gamma: K::Real,
    a0: K::Real,
    p: K::Real,
    q: K::Real,
)
    requires
        is_repeatable(k),
        is_ppt_finished(k, intensity, omega, u_ion, z_eff, gamma, a0, p),
        is_ppt_finished(k, intensity, omega, u_ion, z_eff, gamma, a0, q),
    ensures
        p == q,
{
    assert forall|p: K::Real, q: K::Real| #[trigger]
        is_tunnel_exponent(k, gamma, p) && #[trigger] is_tunnel_exponent(
            k,
            gamma,
            q,
        ) implies p == q by {
        lemma_exponent_is_one(k, gamma, p, q);
    }
    assert forall|p: (K::Real, K::Real), q: (K::Real, K::Real)|
        #![trigger are_coulomb_gammas(k, u_ion, z_eff, p), are_coulomb_gammas(k, u_ion, z_eff, q)]
        are_coulomb_gammas(k, u_ion, z_eff, p)
            && are_coulomb_gammas(k, u_ion, z_eff, q) implies p == q by {
        lemma_gammas_are_one(k, u_ion, z_eff, p, q);
    }
    reveal(reckons_alike);
    reveal(tunnels_alike);
}

pub(crate) proof fn lemma_ppt_is_one<K: Kinetics>(
    k: K,
    intensity: K::Real,
    omega: K::Real,
    u_ion: K::Real,
    z_eff: K::Real,
    p: K::Real,
    q: K::Real,
)
    requires
        is_repeatable(k),
        is_ppt_rate(k, intensity, omega, u_ion, z_eff, p),
        is_ppt_rate(k, intensity, omega, u_ion, z_eff, q),
    ensures
        p == q,
{
    assert forall|g: K::Real, p: K::Real, q: K::Real| #[trigger]
        is_order_weight(k, omega, u_ion, g, p) && #[trigger] is_order_weight(
            k,
            omega,
            u_ion,
            g,
            q,
        ) implies p == q by {
        lemma_order_weight_is_one(k, omega, u_ion, g, p, q);
    }
    assert forall|g: K::Real, a0: K::Real, p: K::Real, q: K::Real|
        #![trigger is_ppt_finished(k, intensity, omega, u_ion, z_eff, g, a0, p), is_ppt_finished(k, intensity, omega, u_ion, z_eff, g, a0, q)]
        is_ppt_finished(k, intensity, omega, u_ion, z_eff, g, a0, p) && is_ppt_finished(
            k,
            intensity,
            omega,
            u_ion,
            z_eff,
            g,
            a0,
            q,
        ) implies p == q by {
        lemma_ppt_is_finished_as_one(k, intensity, omega, u_ion, z_eff, g, a0, p, q);
    }
    reveal(reckons_alike);
    reveal(tunnels_alike);
}

proof fn lemma_source_is_one<K: Kinetics>(
    m: Model<K>,
    intensity: K::Real,
    pressure: K::Real,
    p: K::Real,
    q: K::Real,
)
    requires
        is_repeatable(m.kinetics),
        m.is_mpi(intensity, pressure, p),
        m.is_mpi(intensity, pressure, q),
    ensures
        p == q,
{
    let k = m.kinetics;
    let u = m.gas.u_ion;
    assert forall|p: K::Real, q: K::Real| #[trigger]
        is_ppt_rate(k, intensity, m.omega, u, m.charge, p) && #[trigger] is_ppt_rate(
            k,
            intensity,
            m.omega,
            u,
            m.charge,
            q,
        ) implies p == q by {
        lemma_ppt_is_one(k, intensity, m.omega, u, m.charge, p, q);
    }
    assert forall|p: K::Real, q: K::Real| #[trigger]
        is_keldysh_rate(k, intensity, m.omega, u, m.prefactor, p) && #[trigger] is_keldysh_rate(
            k,
            intensity,
            m.omega,
            u,
            m.prefactor,
            q,
        ) implies p == q by {
        lemma_keldysh_is_one(k, intensity, m.omega, u, m.prefactor, p, q);
    }
    reveal(reckons_alike);
    reveal(tunnels_alike);
}

proof fn lemma_cascade_is_one<K: Kinetics>(
    m: Model<K>,
    intensity: K::Real,
    pressure: K::Real,
    p: K::Real,
    q: K::Real,
)
    requires
        is_repeatable(m.kinetics),
        m.is_cascade(intensity, pressure, p),
        m.is_cascade(intensity, pressure, q),
    ensures
        p == q,
{
    let k = m.kinetics;
    assert forall|nu: K::Real, e: K::Real, photon: K::Real, p: K::Real, q: K::Real|
        #![trigger is_passage_rate(k, nu, e, m.gas.u_ion, photon, p), is_passage_rate(k, nu, e, m.gas.u_ion, photon, q)]
        is_passage_rate(k, nu, e, m.gas.u_ion, photon, p) && is_passage_rate(
            k,
            nu,
            e,
            m.gas.u_ion,
            photon,
            q,
        ) implies p == q by {
        lemma_passage_rate_is_one(k, nu, e, m.gas.u_ion, photon, p, q);
    }
    reveal(reckons_alike);
    reveal(evolves_alike);
}

proof fn lemma_loss_is_one<K: Kinetics>(m: Model<K>, pressure: K::Real, p: K::Real, q: K::Real)
    requires
        is_repeatable(m.kinetics),
        m.is_loss(pressure, p),
        m.is_loss(pressure, q),
    ensures
        p == q,
{
    reveal(reckons_alike);
    reveal(evolves_alike);
}

/// The rates of a gas are a function of the intensity and the pressure.
pub proof fn law_rates_are_reproducible<K: Kinetics>(
    m: Model<K>,
    intensity: K::Real,
    pressure: K::Real,
    a: Rates<K::Real>,
    b: Rates<K::Real>,
)
    requires
        is_repeatable(m.kinetics),
        m.are_rates(intensity, pressure, a),
        m.are_rates(intensity, pressure, b),
    ensures
        a == b,
{
    lemma_cascade_is_one(m, intensity, pressure, a.cascade, b.cascade);
    lemma_loss_is_one(m, pressure, a.loss, b.loss);
    lemma_source_is_one(m, intensity, pressure, a.source, b.source);
    reveal(reckons_alike);
}

proof fn lemma_grown_is_one<K: Kinetics>(
    m: Model<K>,
    rates: Rates<K::Real>,
    n_e: K::Real,
    dt: K::Real,
    p: K::Real,
    q: K::Real,
)
    requires
        is_repeatable(m.kinetics),
        m.is_grown(rates, n_e, dt, p),
        m.is_grown(rates, n_e, dt, q),
    ensures
        p == q,
{
    reveal(reckons_alike);
    reveal(evolves_alike);
}

proof fn lemma_fed_is_one<K: Kinetics>(
    m: Model<K>,
    rates: Rates<K::Real>,
    n_e: K::Real,
    dt: K::Real,
    p: K::Real,
    q: K::Real,
)
    requires
        is_repeatable(m.kinetics),
        m.is_fed(rates, n_e, dt, p),
        m.is_fed(rates, n_e, dt, q),
    ensures
        p == q,
{
    reveal(reckons_alike);
    reveal(evolves_alike);
}

pub(crate) proof fn lemma_advance_is_one<K: Kinetics>(
    m: Model<K>,
    n_e: K::Real,
    intensity: K::Real,
    pressure: K::Real,
    dt: K::Real,
    p: K::Real,
    q: K::Real,
)
    requires
        is_repeatable(m.kinetics),
        m.is_advanced(n_e, intensity, pressure, dt, p),
        m.is_advanced(n_e, intensity, pressure, dt, q),
    ensures
        p == q,
{
    let a = choose|rates: Rates<K::Real>| #[trigger]
        m.are_rates(intensity, pressure, rates) && m.is_advanced_under(rates, n_e, dt, p);
    let b = choose|rates: Rates<K::Real>| #[trigger]
        m.are_rates(intensity, pressure, rates) && m.is_advanced_under(rates, n_e, dt, q);
    law_rates_are_reproducible(m, intensity, pressure, a, b);
    assert(call_ensures(K::is_zero, (&m.kinetics, a.source), true) ==> !call_ensures(
        K::is_zero,
        (&m.kinetics, a.source),
        false,
    )) by {
        reveal(reckons_alike);
    }
    if m.is_grown(a, n_e, dt, p) && m.is_grown(a, n_e, dt, q) {
        lemma_grown_is_one(m, a, n_e, dt, p, q);
    }
    if m.is_fed(a, n_e, dt, p) && m.is_fed(a, n_e, dt, q) {
        lemma_fed_is_one(m, a, n_e, dt, p, q);
    }
}

pub(crate) proof fn lemma_seed_is_one<K: Kinetics>(m: Model<K>, pressure: K::Real, p: K::Real, q: K::Real)
    requires
        is_repeatable(m.kinetics),
        m.is_seed(pressure, p),
        m.is_seed(pressure, q),
    ensures
        p == q,
{
    reveal(reckons_alike);
    reveal(evolves_alike);
}

proof fn lemma_pulse_is_one<K: Kinetics>(
    m: Model<K>,
    pulse: Pulse<K::Real>,
    a: Seq<K::Real>,
    s: Seq<K::Real>,
    b: Seq<K::Real>,
    t: Seq<K::Real>,
    i: int,
)
    requires
        is_repeatable(m.kinetics),
        m.is_pulse_run(pulse, a, s),
        m.is_pulse_run(pulse, b, t),
        0 <= i < a.len(),
        i < b.len(),
    ensures
        a[i] == b[i],
        s[i] == t[i],
    decreases i,
{
    if i > 0 {
        lemma_pulse_is_one(m, pulse, a, s, b, t, i - 1);
        assert(m.is_pulse_leg(pulse, a, s, i - 1) && m.is_pulse_leg(pulse, b, t, i - 1));
        assert forall|intensity: K::Real, p: K::Real, q: K::Real|
            #![trigger m.is_advanced(a[i - 1], intensity, pulse.pressure, pulse.dt, p), m.is_advanced(a[i - 1], intensity, pulse.pressure, pulse.dt, q)]
            m.is_advanced(a[i - 1], intensity, pulse.pressure, pulse.dt, p) && m.is_advanced(
                a[i - 1],
                intensity,
                pulse.pressure,
                pulse.dt,
                q,
            ) implies p == q by {
            lemma_advance_is_one(m, a[i - 1], intensity, pulse.pressure, pulse.dt, p, q);
        }
        reveal(reckons_alike);
        reveal(evolves_alike);
    } else {
        lemma_seed_is_one(m, pulse.pressure, a[0], b[0]);
    }
}

/// Whether a pulse breaks the gas down is a function of the pulse and the pressure.
pub proof fn law_breakdown_is_reproducible<K: Kinetics>(
    m: Model<K>,
    i_peak: K::Real,
    fwhm: K::Real,
    pressure: K::Real,
    n_steps: usize,
    a: bool,
    b: bool,
)
    requires
        is_repeatable(m.kinetics),
        m.is_breakdown(i_peak, fwhm, pressure, n_steps, a),
        m.is_breakdown(i_peak, fwhm, pressure, n_steps, b),
    ensures
        a == b,
{
    let x = choose|peak: K::Real| #[trigger]
        m.is_peak(i_peak, fwhm, pressure, n_steps, peak) && call_ensures(
            K::reaches,
            (&m.kinetics, peak, m.criterion),
            a,
        );
    let y = choose|peak: K::Real| #[trigger]
        m.is_peak(i_peak, fwhm, pressure, n_steps, peak) && call_ensures(
            K::reaches,
            (&m.kinetics, peak, m.criterion),
            b,
        );
    let (p, d, s) = choose|p: Pulse<K::Real>, densities: Seq<K::Real>, peaks: Seq<K::Real>|
        {
            &&& m.is_pulse(i_peak, fwhm, pressure, n_steps, p)
            &&& #[trigger] m.is_pulse_run(p, densities, peaks)
            &&& densities.len() == n_steps + 1
            &&& peaks.last() == x
        };
    let (q, e, t) = choose|p: Pulse<K::Real>, densities: Seq<K::Real>, peaks: Seq<K::Real>|
        {
            &&& m.is_pulse(i_peak, fwhm, pressure, n_steps, p)
            &&& #[trigger] m.is_pulse_run(p, densities, peaks)
            &&& densities.len() == n_steps + 1
            &&& peaks.last() == y
        };
    assert(p == q) by {
        reveal(evolves_alike);
    }
    lemma_pulse_is_one(m, p, d, s, e, t, n_steps as int);
    reveal(reckons_alike);
}

proof fn lemma_search_is_one<K: Kinetics>(
    m: Model<K>,
    fwhm: K::Real,
    pressure: K::Real,
    n_steps: usize,
    a: Seq<(K::Real, K::Real)>,
    b: Seq<(K::Real, K::Real)>,
    i: int,
)
    requires
        is_repeatable(m.kinetics),
        m.is_search(fwhm, pressure, n_steps, a),
        m.is_search(fwhm, pressure, n_steps, b),
        0 <= i < a.len(),
        i < b.len(),
    ensures
        a[i] == b[i],
    decreases i,
{
    if i > 0 {
        lemma_search_is_one(m, fwhm, pressure, n_steps, a, b, i - 1);
        assert(m.is_halving_at(fwhm, pressure, n_steps, a, i - 1));
        assert(m.is_halving_at(fwhm, pressure, n_steps, b, i - 1));
        assert forall|mid: K::Real|
            !(#[trigger] m.is_breakdown(mid, fwhm, pressure, n_steps, true)
                && #[trigger] m.is_breakdown(mid, fwhm, pressure, n_steps, false)) by {
            if m.is_breakdown(mid, fwhm, pressure, n_steps, true) && m.is_breakdown(
                mid,
                fwhm,
                pressure,
                n_steps,
                false,
            ) {
                law_breakdown_is_reproducible(m, mid, fwhm, pressure, n_steps, true, false);
            }
        }
    }
    reveal(evolves_alike);
}

/// The threshold of a gas, where it has one, is a function of the pulse and the
/// pressure.
pub proof fn law_threshold_is_reproducible<K: Kinetics>(
    m: Model<K>,
    fwhm: K::Real,
    pressure: K::Real,
    n_steps: usize,
    p: K::Real,
    q: K::Real,
)
    requires
        is_repeatable(m.kinetics),
        m.is_threshold(fwhm, pressure, n_steps, Ok(p)),
        m.is_threshold(fwhm, pressure, n_steps, Ok(q)),
    ensures
        p == q,
{
    let a = choose|trace: Seq<(K::Real, K::Real)>|
        {
            &&& #[trigger] m.is_search(fwhm, pressure, n_steps, trace)
            &&& trace.len() == MAX_BISECTIONS + 1 || (trace.len() > 1 && m.is_narrow_at(
                trace,
                trace.len() - 1,
                true,
            ))
            &&& call_ensures(K::geometric_mean, (&m.kinetics, trace.last().0, trace.last().1), p)
        };
    let b = choose|trace: Seq<(K::Real, K::Real)>|
        {
            &&& #[trigger] m.is_search(fwhm, pressure, n_steps, trace)
            &&& trace.len() == MAX_BISECTIONS + 1 || (trace.len() > 1 && m.is_narrow_at(
                trace,
                trace.len() - 1,
                true,
            ))
            &&& call_ensures(K::geometric_mean, (&m.kinetics, trace.last().0, trace.last().1), q)
        };
    let shorter = if a.len() <= b.len() {
        a.len()
    } else {
        b.len()
    };
    lemma_search_is_one(m, fwhm, pressure, n_steps, a, b, shorter - 1);
    if a.len() < b.len() {
        assert(m.is_narrow_at(b, shorter - 1, false));
    }
    if b.len() < a.len() {
        assert(m.is_narrow_at(a, shorter - 1, false));
    }
    reveal(evolves_alike);
}

/// A model is a function of the gas and of its focal region.
pub proof fn law_model_is_reproducible<K: Kinetics>(
    k: K,
    wavelength: K::Real,
    gas: Gas<K::Real>,
    focus: Focus<K::Real>,
    temperature: K::Real,
    a: AirBreakdown<K>,
    b: AirBreakdown<K>,
)
    requires
        is_repeatable(k),
        is_model(k, wavelength, gas, focus, temperature, Ok(a)),
        is_model(k, wavelength, gas, focus, temperature, Ok(b)),
    ensures
        a@ == b@,
{
    reveal(reckons_alike);
    reveal(evolves_alike);
}

} // verus!

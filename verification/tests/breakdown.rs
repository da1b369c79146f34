use beamprop::breakdown0d::{
    AirBreakdown, BreakdownError, CascadeModel, Focus, Gas, Kinetics, MonatomicGas,
    FIRST_PASSAGE_STEPS, PPT_ATI_MAX_TERMS,
};
use beamprop::breakdown_case::{
    case_model, run_breakdown, threshold_curve, BreakdownCase, BreakdownCaseError,
    BreakdownParams, Setup,
};
use beamprop::special::{ln_gamma, Gamma};
use beamprop::validate::{loglog_slope, Fitting};
use std::f64::consts::PI;

const E_CHARGE: f64 = 1.602_176_634e-19;
const M_E: f64 = 9.109_383_701_5e-31;
const C_LIGHT: f64 = 299_792_458.0;
const EPS0: f64 = 8.854_187_812_8e-12;
const HBAR: f64 = 1.054_571_817e-34;
const P_REF: f64 = 101_325.0;
const HARTREE: f64 = 4.359_744_722_207_1e-18;
const F_ATOMIC: f64 = 5.142_206_747_63e11;
/// Largest exponent that is used.
const MAX_EXPONENT: f64 = 700.0;
/// Ion pairs that cosmic rays and the ground make, per cubic metre and second.
const ION_PAIR_PRODUCTION: f64 = 1.0e7;
/// Effective charge that an electron leaving oxygen sees.
const Z_EFF_O2: f64 = 0.53;

/// The Lanczos series of the gamma function.
#[derive(Debug, Clone, Copy, PartialEq)]
struct Lanczos;

const LANCZOS: [f64; 9] = [
    0.999_999_999_999_809_9,
    676.520_368_121_885_1,
    -1_259.139_216_722_402_8,
    771.323_428_777_653_1,
    -176.615_029_162_140_6,
    12.507_343_278_686_905,
    -0.138_571_095_265_720_12,
    9.984_369_578_019_572e-6,
    1.505_632_735_149_311_6e-7,
];

impl Gamma for Lanczos {
    type Real = f64;

    fn minus(&self, a: f64, b: f64) -> f64 {
        a - b
    }

    fn is_reflected(&self, x: f64) -> bool {
        x < 0.5
    }

    fn mirror(&self, x: f64) -> f64 {
        1.0 - x
    }

    fn log_product(&self, x: f64) -> f64 {
        (PI / (PI * x).sin()).abs().ln()
    }

    fn first_term(&self) -> f64 {
        LANCZOS[0]
    }

    fn add_term(&self, series: f64, x: f64, i: usize) -> f64 {
        series + LANCZOS[i] / (x - 1.0 + i as f64)
    }

    fn from_series(&self, x: f64, series: f64) -> f64 {
        let z = x - 1.0;
        let t = z + 7.0 + 0.5;
        0.5 * (2.0 * PI).ln() + (z + 0.5) * t.ln() - t + series.ln()
    }
}

/// The kinetics of a gas in SI units, with the reference point of the measured
/// multiphoton law: its intensity and, if it is given, its rate.
#[derive(Debug, Clone, Copy, PartialEq)]
struct Air {
    mpi_intensity: f64,
    mpi_rate: Option<f64>,
}

const AIR: Air = Air {
    mpi_intensity: 4.42e13,
    mpi_rate: None,
};

impl Air {
    /// Dry air.
    fn dry_air() -> Gas<f64> {
        Gas {
            u_ion: 12.06 * E_CHARGE,
            k_m: 3.9e7,
            d_e_ref: 2.0e-1,
            delta_eff: 0.02,
            mean_energy: 3.0 * E_CHARGE,
            k_att_2body: 1.0e-17,
            k_att_3body: 1.0e-43,
            f_att: 0.21,
        }
    }

    /// A cylindrical focus of radius `r` and length `l`.
    fn cylinder(r: f64, l: f64) -> Focus<f64> {
        let volume = PI * r * r * l;
        let surface = 2.0 * PI * r * r + 2.0 * PI * r * l;
        Focus {
            lambda_diff: 1.0 / ((PI / l).powi(2) + (2.405 / r).powi(2)).sqrt(),
            mean_chord: 4.0 * volume / surface,
            volume,
        }
    }

    /// A spherical focus of radius `r`.
    fn sphere(r: f64) -> Focus<f64> {
        Focus {
            lambda_diff: r / PI,
            mean_chord: 4.0 * r / 3.0,
            volume: 4.0 / 3.0 * PI * r * r * r,
        }
    }

    /// The focus of a lens of 4 cm on a beam of 1 cm and 1 mrad.
    fn lens_focus() -> Focus<f64> {
        let l_axial = 0.414 * (1e-3 / 1e-2) * 0.04_f64.powi(2);
        Self::cylinder(20e-6, l_axial)
    }

    fn barrier(&self, eps_inf: f64, photon: f64, e: f64) -> f64 {
        (e * e - 2.0 * eps_inf * e) / (eps_inf * photon)
    }

    fn field(&self, intensity: f64) -> f64 {
        (2.0 * intensity / (EPS0 * C_LIGHT)).sqrt()
    }
}

impl Kinetics for Air {
    type Real = f64;

    type Series = Lanczos;

    fn series(&self) -> Lanczos {
        Lanczos
    }

    fn zero(&self) -> f64 {
        0.0
    }

    fn one(&self) -> f64 {
        1.0
    }

    fn half(&self) -> f64 {
        0.5
    }

    fn not_a_number(&self) -> f64 {
        f64::NAN
    }

    fn infinity(&self) -> f64 {
        f64::INFINITY
    }

    fn plus(&self, a: f64, b: f64) -> f64 {
        a + b
    }

    fn minus(&self, a: f64, b: f64) -> f64 {
        a - b
    }

    fn times(&self, a: f64, b: f64) -> f64 {
        a * b
    }

    fn ratio(&self, a: f64, b: f64) -> f64 {
        a / b
    }

    fn negate(&self, a: f64) -> f64 {
        -a
    }

    fn magnitude(&self, a: f64) -> f64 {
        a.abs()
    }

    fn larger(&self, a: f64, b: f64) -> f64 {
        a.max(b)
    }

    fn smaller(&self, a: f64, b: f64) -> f64 {
        a.min(b)
    }

    fn exponential(&self, a: f64) -> f64 {
        a.exp()
    }

    fn exponential_gain(&self, a: f64) -> f64 {
        a.exp_m1()
    }

    fn exceeds(&self, a: f64, b: f64) -> bool {
        a > b
    }

    fn reaches(&self, a: f64, b: f64) -> bool {
        a >= b
    }

    fn is_at_most(&self, a: f64, b: f64) -> bool {
        a <= b
    }

    fn is_positive(&self, a: f64) -> bool {
        a > 0.0
    }

    fn is_valid(&self, a: f64) -> bool {
        a > 0.0 && a.is_finite()
    }

    fn is_finite(&self, a: f64) -> bool {
        a.is_finite()
    }

    fn is_zero(&self, a: f64) -> bool {
        a == 0.0
    }

    fn is_nan(&self, a: f64) -> bool {
        a.is_nan()
    }

    fn climbs(&self, nu_relax: f64, eps_inf: f64, u_ion: f64, photon: f64) -> bool {
        nu_relax > 0.0
            && eps_inf > 0.0
            && u_ion > 0.0
            && photon > 0.0
            && nu_relax.is_finite()
            && eps_inf.is_finite()
            && u_ion.is_finite()
    }

    fn is_blocked(&self, eps_inf: f64, u_ion: f64, photon: f64) -> bool {
        self.barrier(eps_inf, photon, u_ion) - self.barrier(eps_inf, photon, eps_inf.min(u_ion))
            > MAX_EXPONENT
    }

    fn passage_step(&self, u_ion: f64, n: usize) -> f64 {
        u_ion / n as f64
    }

    fn passage_potential(&self, eps_inf: f64, photon: f64, h: f64, k: usize) -> f64 {
        self.barrier(eps_inf, photon, k as f64 * h)
    }

    fn passage_growth(&self, now: f64, before: f64) -> f64 {
        (now - before).exp()
    }

    fn passage_inner(&self, r: f64, s: f64, h: f64) -> f64 {
        r * s + 0.5 * h * (r + 1.0)
    }

    fn passage_outer(&self, total: f64, s: f64, w: f64, h: f64) -> f64 {
        total + s * w * h
    }

    fn passage_time(&self, total: f64, nu_relax: f64, eps_inf: f64, photon: f64) -> f64 {
        total / (0.5 * nu_relax * eps_inf * photon)
    }

    fn keldysh_gamma(&self, intensity: f64, omega: f64, u_ion: f64) -> f64 {
        omega * (2.0 * M_E * u_ion).sqrt() / (E_CHARGE * self.field(intensity))
    }

    fn is_small_gamma(&self, gamma: f64) -> bool {
        gamma < 0.1
    }

    fn exponent_series(&self, gamma: f64) -> f64 {
        gamma * (2.0 / 3.0 - gamma * gamma / 15.0)
    }

    fn exponent_closed(&self, gamma: f64) -> f64 {
        let root = (1.0 + gamma * gamma).sqrt();
        (1.0 + 1.0 / (2.0 * gamma * gamma)) * gamma.asinh() - root / (2.0 * gamma)
    }

    fn keldysh_action(&self, u_ion: f64, omega: f64, exponent: f64) -> f64 {
        2.0 * u_ion / (HBAR * omega) * exponent
    }

    fn keldysh_law(&self, prefactor: f64, omega: f64, action: f64) -> f64 {
        prefactor * omega * (-action.min(MAX_EXPONENT)).exp()
    }

    fn is_dawson_near(&self, x: f64) -> bool {
        x <= 4.0
    }

    fn dawson_near(&self, term: f64, x: f64, n: usize) -> f64 {
        term * (-2.0 * x * x / (2 * n + 1) as f64)
    }

    fn is_spent_term(&self, term: f64, sum: f64) -> bool {
        term.abs() < 1e-18 * sum.abs()
    }

    fn dawson_far_first(&self, x: f64) -> f64 {
        0.5 / x
    }

    fn dawson_far(&self, term: f64, x: f64, n: usize) -> f64 {
        term * ((2 * n - 1) as f64 / (2.0 * x * x))
    }

    fn ati_decay(&self, gamma: f64) -> f64 {
        2.0 * (gamma.asinh() - gamma / (1.0 + gamma * gamma).sqrt())
    }

    fn ati_count(&self, decay: f64) -> usize {
        (40.0 / decay).ceil() as usize
    }

    fn ati_excess(&self, threshold: f64, k: usize) -> f64 {
        threshold.ceil() + k as f64 - threshold
    }

    fn ati_exponent(&self, decay: f64, excess: f64) -> f64 {
        -decay * excess
    }

    fn is_underflow(&self, exponent: f64) -> bool {
        exponent < -MAX_EXPONENT
    }

    fn ati_argument(&self, gamma: f64, excess: f64) -> f64 {
        let root = (1.0 + gamma * gamma).sqrt();
        (2.0 * gamma / root * excess).sqrt()
    }

    fn ati_scale(&self, gamma: f64, sum: f64) -> f64 {
        4.0 / (3.0 * PI).sqrt() * (gamma * gamma / (1.0 + gamma * gamma)) * sum
    }

    fn ppt_gamma(&self, intensity: f64, omega: f64, u_ion: f64) -> f64 {
        let kappa = (2.0 * (u_ion / HARTREE)).sqrt();
        let omega_au = omega * HBAR / HARTREE;
        omega_au * kappa / (self.field(intensity) / F_ATOMIC)
    }

    fn is_tunnelling(&self, gamma: f64) -> bool {
        gamma < 0.1
    }

    fn ppt_threshold(&self, u_ion: f64, omega: f64, gamma: f64) -> f64 {
        let omega_au = omega * HBAR / HARTREE;
        (u_ion / HARTREE) / omega_au * (1.0 + 1.0 / (2.0 * gamma * gamma))
    }

    fn effective_number(&self, u_ion: f64, z_eff: f64) -> f64 {
        z_eff / (2.0 * (u_ion / HARTREE)).sqrt()
    }

    fn ppt_logarithm(
        &self,
        intensity: f64,
        omega: f64,
        u_ion: f64,
        z_eff: f64,
        a0: f64,
        exponent: f64,
        ln_gammas: (f64, f64),
    ) -> f64 {
        let ip = u_ion / HARTREE;
        let kappa = (2.0 * ip).sqrt();
        let f0 = kappa * kappa * kappa;
        let n_star = z_eff / kappa;
        let omega_au = omega * HBAR / HARTREE;
        let field = self.field(intensity) / F_ATOMIC;
        let gamma = omega_au * kappa / field;
        let root = (1.0 + gamma * gamma).sqrt();
        let ln_c2 = 2.0 * n_star * 2.0f64.ln()
            - n_star.ln()
            - ln_gammas.1
            - ln_gammas.0;
        let coulomb = (2.0 * n_star - 1.5) * (2.0 * f0 / (field * root)).ln();
        let action = 2.0 * ip / omega_au * exponent;
        ln_c2 + 0.5 * (6.0 / PI).ln() + ip.ln() + coulomb + a0.ln() - action
    }

    fn ppt_law(&self, logarithm: f64) -> f64 {
        logarithm.min(MAX_EXPONENT).exp() * HARTREE / HBAR
    }

    fn reference_law(&self, rate: f64, intensity: f64, reference: f64, photons: i32) -> f64 {
        rate * (intensity / reference).powi(photons)
    }

    fn attachment(&self, gas: Gas<f64>, n_neutral: f64) -> f64 {
        let n_att = gas.f_att * n_neutral;
        gas.k_att_2body * n_att + gas.k_att_3body * n_att * n_neutral
    }

    fn mean_speed(&self, gas: Gas<f64>) -> f64 {
        (3.0 * gas.d_e_ref * P_REF * gas.k_m).sqrt()
    }

    fn kinetic_diffusion(&self, gas: Gas<f64>, pressure: f64, energy: f64) -> f64 {
        2.0 * energy / (3.0 * M_E * gas.k_m * pressure)
    }

    fn implied_energy(&self, gas: Gas<f64>, pressure: f64, d_e: f64) -> f64 {
        1.5 * M_E * gas.k_m * pressure * d_e
    }

    fn inelastic_fraction(&self, gas: MonatomicGas<f64>) -> f64 {
        (gas.u_ion - gas.u_excite) / gas.u_ion
    }

    fn ambient_density(&self, pressure: f64, nu_att: f64) -> f64 {
        ION_PAIR_PRODUCTION * (pressure / P_REF) / nu_att
    }

    fn heating(&self, omega: f64, gas: Gas<f64>, intensity: f64, pressure: f64) -> f64 {
        let nu_m = gas.k_m * pressure;
        let p_abs = E_CHARGE * E_CHARGE * intensity / (M_E * C_LIGHT * EPS0);
        p_abs * nu_m / (nu_m * nu_m + omega * omega)
    }

    fn inelastic_loss(&self, gas: Gas<f64>, pressure: f64) -> f64 {
        gas.delta_eff * gas.k_m * pressure * gas.mean_energy
    }

    fn relaxation(&self, gas: Gas<f64>, pressure: f64) -> f64 {
        gas.delta_eff * gas.k_m * pressure
    }

    fn climb_rate(&self, nu_relax: f64, eps_inf: f64, u_ion: f64) -> f64 {
        nu_relax / (eps_inf / (eps_inf - u_ion)).ln()
    }

    fn photon_energy(&self, omega: f64) -> f64 {
        HBAR * omega
    }

    fn diffusion(&self, gas: Gas<f64>, pressure: f64) -> f64 {
        gas.d_e_ref * (P_REF / pressure)
    }

    fn escape(&self, _gas: Gas<f64>, focus: Focus<f64>, d_e: f64, speed: f64) -> f64 {
        let tau_diff = focus.lambda_diff * focus.lambda_diff / d_e;
        let tau_ballistic = focus.mean_chord / speed;
        1.0 / (tau_diff + tau_ballistic)
    }

    fn knudsen(&self, gas: Gas<f64>, focus: Focus<f64>, speed: f64, pressure: f64) -> f64 {
        speed / (gas.k_m * pressure * focus.mean_chord)
    }

    fn plateau(&self, omega: f64, u_ion: f64, delta_eff: f64) -> f64 {
        delta_eff * u_ion * M_E * C_LIGHT * EPS0 * omega * omega / (E_CHARGE * E_CHARGE)
    }

    fn capped(&self, exponent: f64) -> f64 {
        exponent.min(MAX_EXPONENT)
    }

    fn clamped(&self, exponent: f64) -> f64 {
        exponent.clamp(-MAX_EXPONENT, MAX_EXPONENT)
    }

    fn is_negligible(&self, exponent: f64) -> bool {
        exponent.abs() < 1e-12
    }

    fn half_window(&self, half_widths: f64, fwhm: f64) -> f64 {
        half_widths * fwhm
    }

    fn pulse_step(&self, half: f64, n_steps: usize) -> f64 {
        2.0 * half / n_steps as f64
    }

    fn pulse_intensity(&self, i_peak: f64, fwhm: f64, half: f64, dt: f64, step: usize) -> f64 {
        let c = 4.0 * std::f64::consts::LN_2 / (fwhm * fwhm);
        let t = -half + (step as f64 + 0.5) * dt;
        i_peak * (-c * t * t).exp()
    }

    fn bracket_floor(&self) -> f64 {
        1e12
    }

    fn bracket_ceiling(&self) -> f64 {
        1e22
    }

    fn geometric_mean(&self, lo: f64, hi: f64) -> f64 {
        (lo * hi).sqrt()
    }

    fn is_narrow(&self, lo: f64, hi: f64) -> bool {
        hi / lo < 1.0 + 1e-6
    }

    fn log_spaced(&self, lo: f64, hi: f64, i: usize, parts: usize) -> f64 {
        lo * (hi / lo).powf(i as f64 / parts as f64)
    }

    fn angular_frequency(&self, wavelength: f64) -> f64 {
        2.0 * PI * C_LIGHT / wavelength
    }

    fn photon_count(&self, u_ion: f64, omega: f64) -> i32 {
        (u_ion / (HBAR * omega)).ceil() as i32
    }

    fn density_per_pressure(&self, temperature: f64) -> f64 {
        1.0 / (1.380_649e-23 * temperature)
    }

    fn default_criterion(&self) -> f64 {
        1.0e23
    }

    fn default_charge(&self) -> f64 {
        Z_EFF_O2
    }

    fn default_window(&self) -> f64 {
        2.0
    }

    fn electron_volts(&self, ev: f64) -> f64 {
        ev * E_CHARGE
    }

    fn measured_rate(&self, criterion: f64, n_over_p: f64, pressure: f64, fwhm: f64) -> f64 {
        match self.mpi_rate {
            Some(rate) => rate,
            None => criterion / (n_over_p * pressure * fwhm),
        }
    }

    fn measured_intensity(&self) -> f64 {
        self.mpi_intensity
    }

    fn measured_photons(&self) -> i32 {
        14
    }
}

const TORR: f64 = 133.322_368_4;

impl BreakdownCase for Air {
    fn is_reference(&self, wavelength: f64) -> bool {
        (wavelength - 1064e-9).abs() < 1e-12
    }

    fn reference_setup(&self) -> Setup<f64> {
        Setup {
            wavelength: 1064e-9,
            gas: Air::dry_air(),
            focus: Air::lens_focus(),
            temperature: 288.0,
        }
    }

    fn retuned_setup(&self, wavelength: f64) -> Setup<f64> {
        Setup {
            wavelength,
            gas: Air::dry_air(),
            focus: Air::sphere(20e-6),
            temperature: 288.0,
        }
    }

    fn sweep_pressure(&self, p_min: f64, p_max: f64, i: usize, points: usize) -> f64 {
        let frac = i as f64 / (points - 1) as f64;
        p_min * (p_max / p_min).powf(frac)
    }

    fn pascals(&self, torr: f64) -> f64 {
        torr * TORR
    }

    fn large_loss(&self) -> (f64, f64) {
        (0.05, 3.0)
    }

    fn small_loss(&self) -> (f64, f64) {
        (0.01, 3.0)
    }

    fn per_square_centimetre(&self, intensity: f64) -> f64 {
        intensity / 1e4
    }

    fn trace_step(&self, fwhm: f64, steps: usize) -> f64 {
        4.0 * fwhm / steps as f64
    }

    fn trace_time(&self, fwhm: f64, dt: f64, step: usize) -> f64 {
        -2.0 * fwhm + (step as f64 + 0.5) * dt
    }

    fn trace_intensity(&self, peak: f64, fwhm: f64, t: f64) -> f64 {
        let c = 4.0 * std::f64::consts::LN_2 / (fwhm * fwhm);
        peak * (-c * t * t).exp()
    }

    fn cascade_theory(&self, pressure: f64, wavelength: f64) -> f64 {
        let p_atm = pressure / 101_325.0;
        let lambda_um = wavelength * 1e6;
        1.44e6 * (p_atm * p_atm + 2.2e5 / (lambda_um * lambda_um)) * 1e4
    }
}

/// Least squares in logarithms.
#[derive(Debug, Clone, Copy, PartialEq)]
struct LeastSquares;

impl Fitting for LeastSquares {
    type Real = f64;

    fn zero(&self) -> f64 {
        0.0
    }

    fn plus(&self, a: f64, b: f64) -> f64 {
        a + b
    }

    fn times(&self, a: f64, b: f64) -> f64 {
        a * b
    }

    fn logarithm(&self, x: f64) -> f64 {
        x.ln()
    }

    fn spread(&self, n: usize, sx: f64, sxx: f64) -> f64 {
        n as f64 * sxx - sx * sx
    }

    fn is_degenerate(&self, spread: f64) -> bool {
        spread.abs() < f64::EPSILON
    }

    fn slope(&self, n: usize, sx: f64, sy: f64, sxy: f64, spread: f64) -> f64 {
        (n as f64 * sxy - sx * sy) / spread
    }
}

const P_LO: f64 = 300.0 * TORR;
const P_HI: f64 = 2000.0 * TORR;

fn with_gas(k: Air, gas: Gas<f64>) -> AirBreakdown<Air> {
    AirBreakdown::new(k, 1064e-9, gas, Air::lens_focus(), 288.0).ok().unwrap()
}

fn model() -> AirBreakdown<Air> {
    with_gas(AIR, Air::dry_air())
}

/// Dry air that loses no electrons.
fn lossless() -> Gas<f64> {
    Gas {
        k_att_2body: 0.0,
        k_att_3body: 0.0,
        d_e_ref: 0.0,
        ..Air::dry_air()
    }
}

fn slope(curve: &[(f64, f64)]) -> Option<f64> {
    loglog_slope(&LeastSquares, curve)
}

fn dawson(x: f64) -> f64 {
    beamprop::breakdown0d::dawson(&AIR, x)
}

fn ln_gamma_of(x: f64) -> f64 {
    ln_gamma(&Lanczos, x)
}

fn ppt_ati_terms(gamma: f64) -> usize {
    beamprop::breakdown0d::ppt_ati_terms(&AIR, gamma)
}

fn ppt_ati_sum(gamma: f64, nu: f64, terms: usize) -> f64 {
    beamprop::breakdown0d::ppt_ati_sum(&AIR, gamma, nu, terms)
}

fn ppt_rate(intensity: f64, omega: f64, u_ion: f64, z_eff: f64) -> f64 {
    beamprop::breakdown0d::ppt_rate(&AIR, intensity, omega, u_ion, z_eff)
}

fn first_passage_integral(eps_inf: f64, u_ion: f64, photon: f64, n: usize) -> f64 {
    beamprop::breakdown0d::first_passage_integral(&AIR, eps_inf, u_ion, photon, n)
}

fn first_passage_ionization_rate(nu_relax: f64, eps_inf: f64, u_ion: f64, photon: f64) -> f64 {
    beamprop::breakdown0d::first_passage_ionization_rate(&AIR, nu_relax, eps_inf, u_ion, photon)
}

#[test]
fn pure_cascade_is_exponential_growth() {
    let p = 760.0 * TORR;
    let intensity = 1e15;
    let nu_i = model().cascade_rate(intensity, p);
    let bare = with_gas(AIR, lossless()).without_mpi();
    let dt = 1e-11;
    let steps = 50;
    let mut n_e = 1.0;
    for _ in 0..steps {
        n_e = bare.advance(n_e, intensity, p, dt);
    }
    let analytic = (nu_i * dt * steps as f64).exp();
    assert!(
        (n_e / analytic - 1.0).abs() < 1e-9,
        "cascade {n_e:e} vs analytic {analytic:e}"
    );
}

#[test]
fn pure_loss_is_exponential_decay() {
    let m = model();
    let p = 760.0 * TORR;
    let loss = m.loss_rate(p);
    let bare = m.without_mpi();
    let dt = 1e-10;
    let steps = 30;
    let mut n_e = 1e20;
    for _ in 0..steps {
        n_e = bare.advance(n_e, 0.0, p, dt);
    }
    let analytic = 1e20 * (-loss * dt * steps as f64).exp();
    assert!(
        (n_e / analytic - 1.0).abs() < 1e-9,
        "loss {n_e:e} vs analytic {analytic:e}"
    );
}

/// A model of a source alone: no losses, and a cascade that never gets going.
fn source_only(s: f64, i0: f64, p: f64) -> AirBreakdown<Air> {
    let k = Air {
        mpi_intensity: i0,
        mpi_rate: Some(s / model().neutral_density(p)),
    };
    let gas = Gas { u_ion: 1e200, ..lossless() };
    with_gas(k, gas).with_tt2012_mpi(6e-9, p)
}

#[test]
fn mpi_only_seeding_is_linear() {
    let p = 760.0 * TORR;
    let s = 1e30;
    let i0: f64 = 1e17;
    let src0 = source_only(s, i0, p);
    let dt = 1e-11;
    let steps = 40;
    let mut n_e = 0.0;
    for _ in 0..steps {
        n_e = src0.advance(n_e, i0, p, dt);
    }
    let analytic = s * dt * steps as f64;
    assert!(
        (n_e / analytic - 1.0).abs() < 1e-9,
        "source {n_e:e} vs analytic {analytic:e}"
    );
}

#[test]
fn balance_point_is_linear_from_seed() {
    let p = 760.0 * TORR;
    let n0 = 1e18;
    let s = 5e29;
    let i0: f64 = 1e17;
    let bal = source_only(s, i0, p);
    let dt = 1e-11;
    let steps = 25;
    let mut n_e = n0;
    for _ in 0..steps {
        n_e = bal.advance(n_e, i0, p, dt);
    }
    let analytic = n0 + s * dt * steps as f64;
    assert!(
        (n_e / analytic - 1.0).abs() < 1e-9,
        "balance {n_e:e} vs analytic {analytic:e}"
    );
}

#[test]
fn photon_count_is_eleven_at_1064nm() {
    let omega = AIR.angular_frequency(1064e-9);
    assert_eq!(AIR.photon_count(model().gas().ionization_energy(), omega), 11);
}

#[test]
fn a_model_must_be_given_a_world_to_live_in() {
    let build = |wavelength: f64, gas: Gas<f64>, focus: Focus<f64>, t: f64| {
        AirBreakdown::new(AIR, wavelength, gas, focus, t).err()
    };
    let (gas, focus) = (Air::dry_air(), Air::lens_focus());
    assert_eq!(build(1064e-9, gas, focus, 288.0), None);
    assert_eq!(build(0.0, gas, focus, 288.0), Some(BreakdownError::BadWavelength));
    assert_eq!(build(f64::NAN, gas, focus, 288.0), Some(BreakdownError::BadWavelength));
    let flat = Focus { mean_chord: 0.0, ..focus };
    assert_eq!(build(1064e-9, gas, flat, 288.0), Some(BreakdownError::BadFocus));
    assert_eq!(build(1064e-9, gas, focus, -1.0), Some(BreakdownError::BadTemperature));
    let unbound = Gas { u_ion: f64::INFINITY, ..gas };
    assert_eq!(
        build(1064e-9, unbound, focus, 288.0),
        Some(BreakdownError::BadIonizationEnergy)
    );
}

#[test]
fn a_threshold_that_the_bracket_misses_says_on_which_side() {
    let m = model();
    assert_eq!(m.threshold_intensity(6e-9, 0.0, 50), Err(BreakdownError::BadPressure));
    assert_eq!(m.threshold_intensity(6e-9, f64::NAN, 50), Err(BreakdownError::BadPressure));
    let lit = m.with_seed_density(1e24);
    assert_eq!(
        lit.threshold_intensity(6e-9, P_LO, 50),
        Err(BreakdownError::BelowBracket { floor: AIR.bracket_floor(), pressure: P_LO })
    );
    let dark = m.without_mpi().with_seed_density(0.0);
    assert_eq!(
        dark.threshold_intensity(6e-9, P_LO, 50),
        Err(BreakdownError::AboveBracket { ceiling: AIR.bracket_ceiling(), pressure: P_LO })
    );
    // A sweep keeps the pressures that have one.
    assert!(dark.pressure_sweep(P_LO, P_HI, 3, 6e-9, 50).is_empty());
    let c = m.pressure_sweep(P_LO, P_HI, 3, 6e-9, 50);
    assert_eq!(c.len(), 3);
    assert_eq!(c[0].0, P_LO);
    assert_eq!(c[0].1, m.threshold_intensity(6e-9, P_LO, 50).unwrap());
    assert!((c[2].0 / P_HI - 1.0).abs() < 1e-12);
}

#[test]
fn each_ionization_law_shuts_the_others_off() {
    let m = model();
    let p = P_REF;
    let n = m.neutral_density(p);
    let omega = AIR.angular_frequency(1064e-9);
    let u = m.gas().u_ion;
    let i = 1e17;
    assert_eq!(m.mpi_source(i, p), n * ppt_rate(i, omega, u, Z_EFF_O2));
    assert_eq!(m.without_mpi().mpi_source(i, p), 0.0);
    let kel = m.with_keldysh_mpi(2.0);
    let rate = beamprop::breakdown0d::keldysh_rate(&AIR, i, omega, u, 2.0);
    assert!(rate > 0.0);
    assert_eq!(kel.mpi_source(i, p), n * rate);
    let tt = kel.with_tt2012_mpi(6e-9, p);
    let at_reference = tt.mpi_source(4.42e13, p);
    assert!((at_reference / (1e23 / 6e-9) - 1.0).abs() < 1e-12);
    assert_eq!(tt.with_ppt_mpi(Z_EFF_O2).mpi_source(i, p), m.mpi_source(i, p));
}

#[test]
fn the_tunnel_exponent_joins_its_series() {
    let exponent = |g: f64| beamprop::breakdown0d::keldysh_tunnel_exponent(&AIR, g);
    assert!(exponent(0.0).is_nan());
    assert!(exponent(f64::INFINITY).is_nan());
    assert!((exponent(0.1 - 1e-9) / exponent(0.1 + 1e-9) - 1.0).abs() < 1e-5);
    let g: f64 = 2.0;
    let closed = (1.0 + 1.0 / 8.0) * g.asinh() - 5f64.sqrt() / 4.0;
    assert_eq!(exponent(g), closed);
    assert_eq!(beamprop::breakdown0d::keldysh_rate(&AIR, 0.0, 1e15, 1e-18, 1.0), 0.0);
    assert_eq!(beamprop::breakdown0d::keldysh_rate(&AIR, 1e15, 1e15, 1e-18, 0.0), 0.0);
}

#[test]
fn a_rare_gas_neither_attaches_nor_excites_below_its_level() {
    let argon = MonatomicGas {
        name: "Ar",
        u_ion: 15.760 * E_CHARGE,
        delta_elastic: 2.0 * M_E / (39.948 * 1.660_539_066_60e-27),
        u_excite: 11.55 * E_CHARGE,
    };
    assert_eq!(argon.name(), "Ar");
    assert!((argon.inelastic_climb_fraction(&AIR) - (15.760 - 11.55) / 15.760).abs() < 1e-15);
    let gas = Gas::from_monatomic(&AIR, argon, 3.9e7, 0.2);
    assert_eq!(gas.attachment_rate(&AIR, 1e25), 0.0);
    assert_eq!(gas.inelastic_loss_fraction(), argon.elastic_loss_fraction());
    assert_eq!(gas.mean_energy(), argon.delta_elastic * argon.u_ion);
    assert_eq!(gas.collision_frequency_slope(), 3.9e7);
    // Nothing attaches, so nothing is in equilibrium with the ambient source.
    assert_eq!(with_gas(AIR, gas).background_electron_density(P_REF), 0.0);
    // The plateau is proportional to the loss per collision.
    let (air, rare) = (model(), with_gas(AIR, gas));
    let expected = gas.delta_eff * gas.u_ion / (0.02 * 12.06 * E_CHARGE);
    assert!((rare.plateau_intensity() / air.plateau_intensity() / expected - 1.0).abs() < 1e-12);
    let g = air.gas();
    let d = g.kinetic_diffusion_coefficient(&AIR, P_REF, 3.0 * E_CHARGE);
    assert!((g.diffusion_implied_energy(&AIR, P_REF, d) / (1.0 * 3.0 * E_CHARGE) - 1.0).abs() < 1e-12);
}

#[test]
fn no_passage_without_a_drive_or_over_too_high_a_barrier() {
    let u = 12.06 * E_CHARGE;
    let hw = 1.166 * E_CHARGE;
    assert_eq!(first_passage_ionization_rate(0.0, u, u, hw), 0.0);
    assert_eq!(first_passage_ionization_rate(1.0, 0.0, u, hw), 0.0);
    assert_eq!(first_passage_ionization_rate(1.0, f64::INFINITY, u, hw), 0.0);
    assert_eq!(first_passage_ionization_rate(1.0, 1e-3 * u, u, hw), 0.0);
    assert!(first_passage_ionization_rate(1.0, u, u, hw) > 0.0);
    assert!(ppt_ati_terms(1e-9) == PPT_ATI_MAX_TERMS);
    assert_eq!(ppt_rate(0.0, 1e15, u, 0.5), 0.0);
    assert_eq!(ppt_rate(1e15, 1e15, u, 0.0), 0.0);
    assert!(dawson(f64::NAN).is_nan());
    assert_eq!(dawson(f64::INFINITY), 0.0);
}

#[test]
fn a_source_free_step_never_passes_full_ionization() {
    let bare = with_gas(AIR, lossless()).without_mpi();
    let n = bare.neutral_density(P_REF);
    let next = bare.advance(0.5 * n, 1e18, P_REF, 1e-9);
    assert!(next > 0.5 * n && next <= n * (1.0 + 1e-12));
    assert_eq!(bare.advance(0.0, 1e18, P_REF, 1e-9), 0.0);
    assert_eq!(bare.criterion_density(), 1e23);
}

#[test]
fn a_slope_needs_two_distinct_points() {
    assert_eq!(slope(&[]), None);
    assert_eq!(slope(&[(1.0, 2.0)]), None);
    assert_eq!(slope(&[(3.0, 2.0), (3.0, 5.0)]), None);
    let s = slope(&[(1.0, 8.0), (2.0, 2.0), (4.0, 0.5)]).unwrap();
    assert!((s + 2.0).abs() < 1e-12);
}

fn sweep() -> BreakdownParams<f64> {
    BreakdownParams {
        wavelength: 1064e-9,
        fwhm: 6e-9,
        p_min_torr: 300.0,
        p_max_torr: 2000.0,
        points: 6,
        steps: 200,
        drive: 1.08,
    }
}

#[test]
fn breakdown_run_shapes_and_physics() {
    let r = run_breakdown(&AIR, &LeastSquares, &sweep()).unwrap();
    assert_eq!(r.pressure_torr.len(), 6);
    assert_eq!((r.ne_traces.height(), r.ne_traces.width()), (6, 200));
    assert_eq!(r.trace_time.len(), 200);
    assert!(r.threshold[0] > *r.threshold.last().unwrap());
    assert!(r.slope > 0.0);
    assert!(r.slope_envelope.0 < r.slope && r.slope < r.slope_envelope.1);
    assert!(r.ne_traces.as_slice().iter().all(|v| v.is_finite() && *v > 0.0));
    let (lo, hi) = (*r.threshold.last().unwrap(), r.threshold[0]);
    assert!(
        r.drive_intensity > lo && r.drive_intensity < hi,
        "drive {:.4e} does not straddle the sweep [{lo:.4e}, {hi:.4e}]",
        r.drive_intensity
    );
    let m = case_model(&AIR, 1064e-9).ok().unwrap();
    for (i, torr) in r.pressure_torr.iter().enumerate() {
        assert_eq!(r.neutral_density[i], m.neutral_density(torr * TORR));
        assert_eq!(r.n_seed[i], m.seed_density(torr * TORR));
        // No trace falls below where it starts.
        assert!((0..200).all(|s| *r.ne_traces.at(i, s) >= r.n_seed[i]));
        // No trace passes full ionization.
        assert!((0..200).all(|s| *r.ne_traces.at(i, s) <= 1.001 * r.neutral_density[i]));
    }
    assert!(r.pressure_torr.windows(2).all(|w| w[0] < w[1]));
    assert_eq!(r.n_bd, 1e23);
    assert!((r.pressure_torr[0] - 300.0).abs() < 1e-9);
    assert!((r.pressure_torr[5] - 2000.0).abs() < 1e-9);
    let curve = threshold_curve(&m, &sweep()).unwrap();
    assert_eq!(r.threshold[3], curve[3].1 / 1e4);
    assert_eq!(r.drive_intensity, 1.08 * curve[5].1 / 1e4);
}

#[test]
fn breakdown_rejects_bad_pressure_range() {
    let bad = BreakdownParams {
        p_min_torr: 2000.0,
        p_max_torr: 300.0,
        steps: 100,
        drive: 1.5,
        ..sweep()
    };
    assert_eq!(
        run_breakdown(&AIR, &LeastSquares, &bad).err(),
        Some(BreakdownCaseError::BadPressures)
    );
    let zero = BreakdownParams { p_min_torr: 0.0, ..sweep() };
    assert_eq!(
        run_breakdown(&AIR, &LeastSquares, &zero).err(),
        Some(BreakdownCaseError::BadPressures)
    );
    let one = BreakdownParams { points: 1, ..sweep() };
    assert_eq!(
        run_breakdown(&AIR, &LeastSquares, &one).err(),
        Some(BreakdownCaseError::TooFewPoints)
    );
    let dark = BreakdownParams { wavelength: -1.0, ..sweep() };
    assert_eq!(
        run_breakdown(&AIR, &LeastSquares, &dark).err(),
        Some(BreakdownCaseError::Model(BreakdownError::BadWavelength))
    );
    let thin = BreakdownParams { p_min_torr: 1e-2, p_max_torr: 1e3, ..sweep() };
    assert!(matches!(
        run_breakdown(&AIR, &LeastSquares, &thin),
        Err(BreakdownCaseError::Threshold(_))
    ));
}

#[test]
fn slice_refinement_is_consistent() {
    let m = model();
    let p = 500.0 * TORR;
    let intensity = 2e17;
    let dt = 2e-10;
    let coarse = m.advance(1e15, intensity, p, dt);
    let mut fine = 1e15;
    let sub = 64;
    for _ in 0..sub {
        fine = m.advance(fine, intensity, p, dt / sub as f64);
    }
    assert!(
        (coarse / fine - 1.0).abs() < 1e-9,
        "coarse {coarse:e} vs fine {fine:e}");
}

#[test]
fn cascade_is_affine_in_intensity_and_linear_in_pressure() {
    let m = model().with_cascade_model(CascadeModel::FixedMeanEnergy);
    let p = 300.0 * TORR;
    let i = 1e17;
    assert!((m.cascade_rate(i, 2.0 * p) / m.cascade_rate(i, p) - 2.0).abs() < 1e-4);

    let (a, b, c) = (
        m.cascade_rate(i, p),
        m.cascade_rate(2.0 * i, p),
        m.cascade_rate(3.0 * i, p),
    );
    assert!(((b - a) / (c - b) - 1.0).abs() < 1e-12, "not affine in I");
    assert!(
        b / a > 2.0,
        "ν_i/I is linear through the origin ({:.6}) — inelastic offset missing",
        b / a);
}

#[test]
fn cascade_shuts_off_below_the_inelastic_loss() {
    let m = model().with_cascade_model(CascadeModel::FixedMeanEnergy);
    let p = P_REF;
    let i_cut = m.inelastic_loss_power(p) / (m.heating_power(1.0, p));
    assert!(i_cut > 0.0 && i_cut.is_finite());
    assert_eq!(m.cascade_rate(0.5 * i_cut, p), 0.0);
    assert!(m.cascade_rate(2.0 * i_cut, p) > 0.0);
    let net = m.heating_power(i_cut, p) - m.inelastic_loss_power(p);
    assert!(net.abs() < 1e-12 * m.inelastic_loss_power(p));
}

#[test]
fn threshold_brackets_and_breaks_down_above() {
    let m = model();
    let p = 760.0 * TORR;
    let fwhm = 6e-9;
    let it = m.threshold_intensity(fwhm, p, 400).unwrap();
    assert!(it.is_finite() && it > 0.0);
    assert!(m.breaks_down(it * 1.2, fwhm, p, 400));
    assert!(!m.breaks_down(it * 0.8, fwhm, p, 400));
}

#[test]
fn inelastic_loss_envelope_brackets_the_slope() {
    let mut ns = Vec::new();
    for delta in [0.01, 0.02, 0.05] {
        for ev in [2.0, 3.0, 5.0] {
            let m = model()
                .with_cascade_model(CascadeModel::FixedMeanEnergy)
                .with_inelastic_loss(delta, ev);
            let c = m.pressure_sweep(P_LO, P_HI, 8, 6e-9, 400);
            assert_eq!(c.len(), 8);
            ns.push(-slope(&c).unwrap());
        }
    }
    let lo = ns.iter().cloned().fold(f64::MAX, f64::min);
    let hi = ns.iter().cloned().fold(0.0f64, f64::max);
    assert!((0.16..=0.20).contains(&lo) && (0.71..=0.78).contains(&hi));
    assert!(hi < 1.5);
}

#[test]
fn self_consistent_climb_eliminates_the_mean_energy() {
    let sweep = |ev: f64| {
        model()
            .with_inelastic_loss(0.02, ev)
            .with_cascade_model(CascadeModel::SelfConsistentClimb)
            .pressure_sweep(P_LO, P_HI, 8, 6e-9, 400)
    };
    let (a, b) = (sweep(2.0), sweep(5.0));
    assert_eq!(a.len(), 8);
    let (sa, sb) = (slope(&a).unwrap(), slope(&b).unwrap());
    assert!(
        (sa - sb).abs() < 1e-9,
        "⟨ε⟩ still affects the self-consistent path: {sa:.6} vs {sb:.6}");
    let m = model().with_cascade_model(CascadeModel::SelfConsistentClimb);
    let (p, i) = (500.0 * TORR, 2e16);
    let ratio = m.cascade_rate(i, 2.0 * p) / m.cascade_rate(i, p);
    assert!((ratio - 2.0).abs() < 1e-3);
}

#[test]
fn the_two_cascade_models_bracket_the_measurement() {
    let slope_of = |cascade: CascadeModel| {
        let c = model()
            .with_cascade_model(cascade)
            .pressure_sweep(P_LO, P_HI, 8, 6e-9, 400);
        assert_eq!(c.len(), 8);
        -slope(&c).unwrap()
    };
    let fixed = slope_of(CascadeModel::FixedMeanEnergy);
    let selfc = slope_of(CascadeModel::SelfConsistentClimb);
    let measured: f64 = 0.329;
    assert!((0.42..=0.46).contains(&fixed));
    assert!((0.075..=0.098).contains(&selfc));
    assert!(selfc < measured && measured < fixed);
}

#[test]
fn high_pressure_threshold_slope_lies_between_analytic_limits() {
    let m = model();
    let n_points = 8;
    let curve = m.pressure_sweep(P_LO, P_HI, n_points, 6e-9, 400);
    assert_eq!(curve.len(), n_points);
    let slope = slope(&curve).unwrap();
    assert!((-1.0..0.0).contains(&slope));
}

#[test]
fn attachment_is_negligible_against_diffusion_at_one_atmosphere() {
    let m = model();
    let p = P_REF;
    let n = m.neutral_density(p);
    let n_o2 = m.gas().f_att * n;
    let nu_att = m.gas().k_att_2body * n_o2 + m.gas().k_att_3body * n_o2 * n;
    let nu_diff = m.escape_rate(p);
    assert!(
        nu_att < 0.05 * nu_diff,
        "attachment {nu_att:e} is not negligible against diffusion {nu_diff:e}");
    let two_body = m.gas().k_att_2body * n_o2;
    let three_body = m.gas().k_att_3body * n_o2 * n;
    assert!(three_body > 0.1 * two_body && three_body < two_body);
}

#[test]
fn tt2012_mpi_calibration_undershoots_the_data() {
    let p = 760.0 * TORR;
    let cascade = model();
    let with_mpi = cascade.with_tt2012_mpi(6e-9, p);
    let i_cascade = cascade.threshold_intensity(6e-9, p, 400).unwrap();
    let i_mpi = with_mpi.threshold_intensity(6e-9, p, 400).unwrap();
    let measured: f64 = 2.06e11 * 1e4;

    assert!(i_mpi < i_cascade / 100.0);
    assert!(i_mpi < measured / 20.0);
    let default_source = model().mpi_source(1e16, p);
    let tt_source = with_mpi.mpi_source(1e16, p);
    assert!(default_source > 0.0 && tt_source > default_source * 100.0);
}

#[test]
fn threshold_is_window_independent() {
    let base = model();
    let at = |w: f64| {
        base.with_window(w)
            .threshold_intensity(6e-9, 760.0 * TORR, 400)
            .unwrap()
    };
    let widths = [1.0, 1.5, 2.0, 3.0, 4.0];
    let vals: Vec<f64> = widths.iter().map(|&w| at(w)).collect();
    let lo = vals.iter().cloned().fold(f64::MAX, f64::min);
    let hi = vals.iter().cloned().fold(0.0f64, f64::max);
    assert!(hi / lo < 1.01);
}

#[test]
fn cascade_saturates_at_full_ionization() {
    let m = model();
    let p = P_REF;
    let n_neutral = m.neutral_density(p);
    let mut prev = 0.0;
    for i in [1e17, 1e18, 1e20, 1e22, 1e24, 1e26, 1e30] {
        let ne = m.peak_ne(i, 6e-9, p, 400);
        assert!(ne.is_finite(), "peak n_e not finite at I = {i:e}");
        assert!(
            ne <= n_neutral * 1.001,
            "n_e = {ne:e} exceeds full ionization N = {n_neutral:e} at I = {i:e}");
        assert!(
            ne >= prev * 0.999,
            "peak n_e non-monotonic in intensity at I = {i:e}: {ne:e} < {prev:e}");
        prev = ne;
    }
}

#[test]
fn far_above_threshold_stays_broken_down() {
    let m = model();
    let p = 760.0 * TORR;
    for i_peak in [1e20, 1e22, 1e24, 1e30] {
        let n_e = m.peak_ne(i_peak, 6e-9, p, 400);
        assert!(!n_e.is_nan(), "peak n_e is NaN at I = {i_peak:e}");
        assert!(
            m.breaks_down(i_peak, 6e-9, p, 400),
            "no breakdown reported at I = {i_peak:e} (peak n_e = {n_e:e})");
    }
}

#[test]
fn threshold_out_of_bracket_errors_cleanly() {
    let m = model();
    let fwhm = 6e-9;
    let r = m.threshold_intensity(fwhm, 0.01 * TORR, 400);
    assert!(r.is_err());
}

#[test]
fn first_passage_reduces_to_the_mean_energy_climb() {
    let cells: usize = 1 << 17;
    let u_ion = 12.06 * E_CHARGE;
    let nu_relax = 7.9e10;
    let rate = |eps_inf: f64, hw: f64| {
        let coarse = first_passage_integral(eps_inf, u_ion, hw, cells / 2);
        let fine = first_passage_integral(eps_inf, u_ion, hw, cells);
        assert!((coarse / fine - 1.0).abs() < 1e-4);
        0.5 * nu_relax * eps_inf * hw / fine
    };

    for x in [1.24_f64, 2.0, 5.0] {
        let eps_inf = x * u_ion;
        let deterministic = nu_relax / (eps_inf / (eps_inf - u_ion)).ln();
        let mut prev = 0.0;
        for hw_ev in [1.166_f64, 0.5, 0.2, 0.05, 0.02] {
            let ratio = deterministic / rate(eps_inf, hw_ev * E_CHARGE);
            assert!(ratio < 1.0);
            assert!(
                ratio > prev,
                "convergence is not monotone at eps_inf/U_i = {x}: {prev:.5} then {ratio:.5}");
            prev = ratio;
        }
        assert!(prev > 0.99);
    }

    let near = 1.02 * u_ion;
    let det_near = nu_relax / (near / (near - u_ion)).ln();
    let r_coarse = det_near / rate(near, 1.166 * E_CHARGE);
    let r_fine = det_near / rate(near, 0.02 * E_CHARGE);
    assert!(r_fine > r_coarse && r_fine < 0.95);
}

#[test]
fn first_passage_quadrature_is_converged() {
    let u_ion = 12.06 * E_CHARGE;
    let hw = 1.166 * E_CHARGE;
    let eps_inf = 1.24 * u_ion;
    let at = |n: usize| first_passage_integral(eps_inf, u_ion, hw, n);
    let reference = at(32_768);
    let e_coarse = (at(128) / reference - 1.0).abs();
    let e_fine = (at(256) / reference - 1.0).abs();
    let order = (e_coarse / e_fine).log2();
    assert!((1.8..=2.2).contains(&order));
    for hw_ev in [1.166_f64, 2.331] {
        for x in [1.02_f64, 1.05, 1.24, 2.0, 10.0] {
            let ei = x * u_ion;
            let hw_j = hw_ev * E_CHARGE;
            let reference = first_passage_integral(ei, u_ion, hw_j, 32_768);
            let used = (first_passage_integral(ei, u_ion, hw_j, FIRST_PASSAGE_STEPS)
                / reference
                - 1.0)
                .abs();
            assert!(used < 2e-4);
        }
    }
}

#[test]
fn distribution_resolved_has_no_bifurcation() {
    let m = model().with_cascade_model(CascadeModel::DistributionResolved);
    let climb = model().with_cascade_model(CascadeModel::SelfConsistentClimb);
    let p = 760.0 * TORR;
    let u_ion = m.gas().u_ion;

    let i_at_cut = u_ion / m.equilibrium_energy(1.0, p);
    assert!(
        climb.cascade_rate(i_at_cut * 0.99, p) == 0.0
            && climb.cascade_rate(i_at_cut * 1.01, p) > 0.0);

    let mut prev = 0.0;
    for f in [0.5, 0.7, 0.9, 0.99] {
        let r = m.cascade_rate(i_at_cut * f, p);
        assert!(
            r > 0.0,
            "no ionization at ε_∞ = {f}·U_i");
        assert!(r > prev, "rate not monotone in intensity below the cutoff");
        prev = r;
    }

    let lo = m.cascade_rate(i_at_cut * 0.999, p);
    let hi = m.cascade_rate(i_at_cut * 1.001, p);
    assert!((hi / lo - 1.0).abs() < 0.02);
}

#[test]
fn first_passage_rate_depends_only_on_two_dimensionless_groups() {
    let u_ion = 12.06 * E_CHARGE;
    let hw = 1.166 * E_CHARGE;
    let eps_inf = 1.3 * u_ion;
    let base = first_passage_ionization_rate(1.0, eps_inf, u_ion, hw);
    for k in [1e-3, 1.0, 7.9e10, 1e14] {
        let r = first_passage_ionization_rate(k, eps_inf, u_ion, hw);
        assert!(
            (r / (k * base) - 1.0).abs() < 1e-12,
            "rate is not linear in ν_relax at k = {k:e}: {r:e} vs {:e}",
            k * base);
    }
    let scaled = first_passage_ionization_rate(1.0, 2.0 * eps_inf, 2.0 * u_ion, 2.0 * hw);
    assert!((scaled / base - 1.0).abs() < 1e-12);
    let m = model().with_cascade_model(CascadeModel::DistributionResolved);
    let (p, i) = (500.0 * TORR, 2e16);
    let ratio = m.cascade_rate(i, 2.0 * p) / m.cascade_rate(i, p);
    assert!((ratio - 2.0).abs() < 1e-3);
}

#[test]
fn the_diffusion_approximation_is_invalid_at_low_pressure() {
    let m = model();
    let hi = m.knudsen_number(760.0 * TORR);
    let lo = m.knudsen_number(10.0 * TORR);
    assert!(
        hi < 0.05,
        "Kn = {hi:.4} at 760 Torr; the continuum limit is supposed to be safe here");
    assert!(lo > 0.5);
    assert!(
        (lo / hi / 76.0 - 1.0).abs() < 1e-9,
        "Kn is not ∝ 1/p: {lo:.4} at 10 Torr vs {hi:.4} at 760");
}

#[test]
fn escape_rate_recovers_both_limits() {
    let m = model();
    let l_chord = m.focus().mean_chord();
    let v_bar = m.gas().mean_speed(&AIR);

    let mut prev = 0.0;
    for (p_torr, want) in [(760.0, 0.9375), (2000.0, 0.9757), (10_000.0, 0.9951)] {
        let p = p_torr * TORR;
        let continuum =
            m.diffusion_coefficient(p) / (m.diffusion_length() * m.diffusion_length());
        let ratio = m.escape_rate(p) / continuum;
        assert!(ratio < 1.0 && (ratio - want).abs() < 0.01);
        assert!(
            ratio > prev,
            "convergence to the continuum limit is not monotone");
        prev = ratio;
    }

    let ceiling = v_bar / l_chord;
    let very_low = m.escape_rate(0.001 * TORR);
    assert!((very_low / ceiling - 1.0).abs() < 1e-3);
    let mut prev = f64::MAX;
    for p_torr in [0.1, 1.0, 10.0, 100.0, 760.0] {
        let r = m.escape_rate(p_torr * TORR);
        assert!(r <= ceiling * (1.0 + 1e-12), "escape rate exceeded v̄/ℓ");
        assert!(r < prev, "escape rate is not monotone in 1/p");
        prev = r;
    }
}

#[test]
fn the_escape_correction_adds_no_constant() {
    let gas = model().gas();
    let v_bar = gas.mean_speed(&AIR);

    for p_torr in [10.0, 760.0] {
        let p = p_torr * TORR;
        let d_from_v = v_bar * v_bar / (3.0 * gas.k_m * p);
        let d_direct = gas.d_e_ref * (P_REF / p);
        assert!(
            (d_from_v / d_direct - 1.0).abs() < 1e-12,
            "v̄ does not reproduce D_e at {p_torr} Torr: {d_from_v:e} vs {d_direct:e}");
    }
    let ev = 0.5 * M_E * v_bar * v_bar / E_CHARGE;
    assert!((ev - 6.740).abs() < 0.01);
}

#[test]
fn focus_geometry_separates_its_three_length_scales() {
    let f = model().focus();
    assert!((f.diffusion_length() * 1e6 - 7.74).abs() < 0.01);
    assert!((f.mean_chord() * 1e6 - 30.72).abs() < 0.05);
    assert!((f.mean_chord() / f.diffusion_length() - 3.97).abs() < 0.02);
    let sph = Air::sphere(3e-5);
    assert!((sph.diffusion_length() - 3e-5 / PI).abs() < 1e-18);
    assert!((sph.mean_chord() - 4.0 * 3e-5 / 3.0).abs() < 1e-18);
}

#[test]
fn dawson_matches_its_closed_forms() {
    assert_eq!(dawson(0.0), 0.0);
    assert_eq!(dawson(-1.5), -dawson(1.5));

    let x_max = 0.924_138_873_015_5;
    assert!(
        (dawson(x_max) - 0.541_044_224_635_5).abs() < 1e-12,
        "Φ(x_max) = {:.15e}",
        dawson(x_max));

    for x in [1e-2f64, 3e-2, 1e-1] {
        let truncated = x - 2.0 * x * x * x / 3.0;
        let residual = dawson(x) - truncated;
        let next_term = 4.0 * x.powi(5) / 15.0;
        assert!(
            (residual / next_term - 1.0).abs() < x * x,
            "small-x at {x}: residual {residual:.6e} vs next term {next_term:.6e}");
    }

    for x in [20.0, 50.0, 200.0] {
        let ratio = dawson(x) / (0.5 / x);
        assert!(
            ratio > 1.0 && ratio < 1.0 + 2.0 / (x * x),
            "asymptote at {x}: ratio {ratio}");
    }

    let h = 1e-3;
    for &x in &[0.3, 1.0, 2.5, 3.9, 4.1, 6.0, 12.0] {
        let numeric = (dawson(x + h) - dawson(x - h)) / (2.0 * h);
        let exact = 1.0 - 2.0 * x * dawson(x);
        assert!(
            (numeric - exact).abs() < 1e-5,
            "ODE at x = {x}: dΦ/dx = {numeric:.9e} vs 1 − 2xΦ = {exact:.9e}");
    }
}

#[test]
fn dawson_series_join_is_continuous() {
    let c = 4.0_f64;
    let below = dawson(c - 1e-9);
    let above = dawson(c + 1e-9);
    let rel = (above - below).abs() / below;
    assert!(rel < 3e-7);
}

#[test]
fn ln_gamma_matches_its_closed_forms() {
    let mut factorial = 1.0f64;
    for n in 1..=15u32 {
        let exact = factorial.ln();
        assert!(
            (ln_gamma_of(n as f64) - exact).abs() < 1e-12 * exact.abs().max(1.0),
            "ln Γ({n}) = {} vs {exact}",
            ln_gamma_of(n as f64));
        factorial *= n as f64;
    }
    assert!((ln_gamma_of(0.5) - PI.sqrt().ln()).abs() < 1e-13);
    for &x in &[0.25, 0.5, 0.563, 1.5, 2.5, 7.5] {
        let step = ln_gamma_of(x + 1.0) - ln_gamma_of(x) - x.ln();
        assert!(step.abs() < 1e-12, "recurrence at {x}: residual {step:.3e}");
    }
    for &x in &[0.1, 0.3, 0.45] {
        let lhs = ln_gamma_of(x) + ln_gamma_of(1.0 - x);
        let rhs = (PI / (PI * x).sin()).ln();
        assert!(
            (lhs - rhs).abs() < 1e-12,
            "reflection at {x}: {lhs:.15e} vs {rhs:.15e}");
    }
}

#[test]
fn ppt_ati_sum_is_converged() {
    let reference: usize = 1 << 21;
    for &nu in &[10.35, 5.18, 7.5] {
        for &gamma in &[0.1, 0.2, 0.5, 1.0, 3.0, 10.0, 40.0] {
            let converged = ppt_ati_sum(gamma, nu, reference);
            let used = ppt_ati_sum(gamma, nu, ppt_ati_terms(gamma));
            assert!(
                converged > 0.0,
                "reference sum vanished at γ = {gamma}, ν = {nu}");
            let rel = (used / converged - 1.0).abs();
            assert!(rel < 1e-6);
        }
    }
    assert!(ppt_ati_terms(10.0) < 32);
    assert!(ppt_ati_terms(0.1) > 10_000);
    let short = ppt_ati_sum(1.0, 7.5, 4);
    let full = ppt_ati_sum(1.0, 7.5, reference);
    assert!(
        short / full < 0.95,
        "a 4-term sum is already {:.4} of converged at γ = 1",
        short / full);
}

#[test]
fn ppt_reduces_to_adk_in_the_tunnelling_limit() {
    let u_ion = 12.06 * E_CHARGE;
    let omega = 2.0 * PI * C_LIGHT / 1064e-9;
    let ip = u_ion / HARTREE;
    let kappa = (2.0 * ip).sqrt();
    let f0 = kappa * kappa * kappa;
    let n_star = Z_EFF_O2 / kappa;
    let ln_c2 =
        2.0 * n_star * 2.0f64.ln() - n_star.ln() - ln_gamma_of(n_star + 1.0) - ln_gamma_of(n_star);

    let mut previous = f64::MAX;
    for &gamma in &[3e-2, 1e-2, 3e-3, 1e-3] {
        let field = omega * HBAR / HARTREE * kappa / gamma;
        let intensity = 0.5 * EPS0 * C_LIGHT * (field * F_ATOMIC).powi(2);
        let adk = (ln_c2
            + 0.5 * (6.0 / PI).ln()
            + ip.ln()
            + (2.0 * n_star - 1.5) * (2.0 * f0 / field).ln()
            - 2.0 * f0 / (3.0 * field))
            .exp()
            * HARTREE
            / HBAR;
        let ratio = ppt_rate(intensity, omega, u_ion, Z_EFF_O2) / adk;
        let residual = (ratio - 1.0).abs();
        assert!(residual < 5.0 * gamma * gamma);
        assert!(residual < previous);
        previous = residual;
    }
}

#[test]
fn ppt_tunnelling_branch_joins_the_sum() {
    let g = 0.1;
    for &nu in &[10.35, 5.18] {
        let summed = ppt_ati_sum(g, nu, 1 << 21);
        assert!((summed - 1.0).abs() < 0.01);
    }
}

#[test]
fn background_electron_density_is_the_attachment_equilibrium() {
    let m = model();
    for torr in [10.0f64, 100.0, 760.0, 2000.0] {
        let p = torr * TORR;
        let n_neutral = m.neutral_density(p);
        let nu_att = m.gas().attachment_rate(&AIR, n_neutral);
        let q = ION_PAIR_PRODUCTION * (p / P_REF);
        let expected = q / nu_att;
        let got = m.background_electron_density(p);
        assert!((got / expected - 1.0).abs() < 1e-12);
        let residual = m.loss_rate(p) - nu_att - m.escape_rate(p);
        assert!(residual.abs() < 1e-6 * m.loss_rate(p));
    }
}

#[test]
fn the_focus_holds_essentially_no_free_electrons() {
    let m = model();
    let p = 760.0 * TORR;
    let n_e0 = m.background_electron_density(p);
    assert!((0.05..=0.5).contains(&n_e0));
    let in_focus = n_e0 * m.focus().volume();
    assert!(in_focus < 1e-12);
    let one_electron = 1.0 / m.focus().volume();
    assert!(one_electron / n_e0 > 1e12);
}

#[test]
fn ionization_background_is_not_load_bearing() {
    let m = model();
    let p = 760.0 * TORR;
    let base = m.threshold_intensity(6e-9, p, 400).expect("threshold");
    for seed in [1e-6f64, 1e-3, 1.0, 1e3, 1e6] {
        let moved = m
            .with_seed_density(seed)
            .threshold_intensity(6e-9, p, 400)
            .expect("threshold");
        assert!((moved / base - 1.0).abs() < 1e-6);
    }
    let far = m
        .with_seed_density(1e14)
        .threshold_intensity(6e-9, p, 400)
        .expect("threshold");
    assert!(far < 0.97 * base);
}

#[test]
fn seed_floor_applies_only_to_an_explicit_seed() {
    let p = 760.0 * TORR;
    let bare = model().without_mpi();
    let n0 = bare.seed_density(p);
    let pinned = bare.with_seed_density(n0);
    assert_eq!(
        n0,
        pinned.seed_density(p),
        "the two runs must start from the same density");

    let free = bare.peak_ne(8e15, 6e-9, p, 400);
    let floored = pinned.peak_ne(8e15, 6e-9, p, 400);
    assert!(floored > free * 1000.0);
    assert!(
        floored >= n0,
        "floored peak {floored:.4e} fell below its own seed {n0:.3e}");
}

#[test]
fn ppt_rate_is_monotonic_across_the_bisection_bracket() {
    let u_ion = 12.06 * E_CHARGE;
    for &nm in &[1064e-9, 532e-9] {
        let omega = 2.0 * PI * C_LIGHT / nm;
        let mut previous = 0.0;
        for k in 0..=200 {
            let i = AIR.bracket_floor() * 10f64.powf(k as f64 * 10.0 / 200.0);
            let w = ppt_rate(i, omega, u_ion, Z_EFF_O2);
            assert!(w >= previous);
            previous = w;
        }
    }
}

#[test]
fn a_threshold_is_known_to_within_its_bracket() {
    let m = model();
    let t = m.threshold_intensity(10e-9, 101_325.0, 200).unwrap();
    assert!(m.breaks_down(t * (1.0 + 1e-3), 10e-9, 101_325.0, 200));
    assert!(!m.breaks_down(t * (1.0 - 1e-3), 10e-9, 101_325.0, 200));
}

#[test]
fn a_few_electrons_grow_exponentially() {
    let m = model().without_mpi();
    let (p, intensity) = (500.0 * TORR, 2e17);
    let growth = m.cascade_rate(intensity, p) - m.loss_rate(p);
    assert!(growth > 0.0);
    for folds in [0.5f64, 3.0, 10.0] {
        let next = m.advance(1.0, intensity, p, folds / growth);
        assert!((next / folds.exp() - 1.0).abs() < 1e-9, "{next} after {folds}");
    }
}

#[test]
fn there_are_never_more_electrons_than_neutrals() {
    for m in [model(), model().without_mpi()] {
        let p = 500.0 * TORR;
        let neutrals = m.neutral_density(p);
        for intensity in [1e16, 1e18, 1e20] {
            let mut n_e = 1e15;
            for _ in 0..200 {
                n_e = m.advance(n_e, intensity, p, 2e-10);
                assert!(n_e <= neutrals * (1.0 + 1e-12), "{n_e:e} of {neutrals:e}");
            }
        }
    }
}

#[test]
fn a_threshold_comes_out_the_same_each_time() {
    let m = model();
    let first = m.threshold_intensity(10e-9, 101_325.0, 200).unwrap();
    assert_eq!(m.threshold_intensity(10e-9, 101_325.0, 200), Ok(first));
    let again = model().threshold_intensity(10e-9, 101_325.0, 200);
    assert_eq!(again, Ok(first));
}
